//! Value matchers: patterns of literal anchors and named captures, used to
//! extract captures from a text and to generate a text from captures.
//!
//! In a pattern, a literal is written between double quotes and a capture
//! is a bare run of text.

use super::captures::{CaptureMap, Captures};
use crate::parsing::lexer::{Token, TokenType};
use crate::text::{
    byte_offset, byte_slice, char_index_at, char_offsets, find_chars, leftmost_occurrence,
    lemma_occurrence_from, occurs_at, string_of,
    to_chars, trimmed, trimmed_string,
};
use vstd::prelude::*;

verus! {

/// Where `substring` first occurs in `source`: the position of its first
/// character and the position after its last.
pub open spec fn substring_position(source: Seq<char>, substring: Seq<char>) -> Option<
    (int, int),
> {
    match leftmost_occurrence(source, substring) {
        Some(start) => Some((start, start + substring.len())),
        None => None,
    }
}

/// The leftmost occurrence of `substring` in `source`, as a half-open
/// range of character positions. The empty string occurs at position 0.
pub fn get_position_of_substring(source: &str, substring: &str) -> (r: Option<(usize, usize)>)
    ensures
        match r {
            Some((start, end)) => {
                &&& substring_position(source@, substring@) == Some((start as int, end as int))
                &&& end == start + substring@.len()
                &&& occurs_at(source@, substring@, start as int)
                &&& forall|j: int| 0 <= j < start ==> !occurs_at(source@, substring@, j)
            },
            None => {
                &&& substring_position(source@, substring@) is None
                &&& forall|j: int| !occurs_at(source@, substring@, j)
            },
        },
{
    let source_chars = to_chars(source);
    let substring_chars = to_chars(substring);
    proof {
        lemma_occurrence_from(source@, substring@, 0);
    }
    position_in(&source_chars, &substring_chars)
}

/// The leftmost occurrence of `substring` in `source`.
fn position_in(source: &Vec<char>, substring: &Vec<char>) -> (r: Option<(usize, usize)>)
    ensures
        match r {
            Some((start, end)) => substring_position(source@, substring@) == Some(
                (start as int, end as int),
            ),
            None => substring_position(source@, substring@) is None,
        },
{
    proof {
        lemma_occurrence_from(source@, substring@, 0);
    }
    match find_chars(source, substring) {
        Some(start) => {
            assert(start + substring@.len() <= source.len());
            Some((start, start + substring.len()))
        },
        None => None,
    }
}

/// One component of a pattern.
#[derive(Debug)]
enum ValueComponent {
    Literal(String),
    Capture(String),
}

/// The mathematical value of a pattern component: a literal with its text
/// or a capture with its name.
pub enum ComponentView {
    Literal(Seq<char>),
    Capture(Seq<char>),
}

impl View for ValueComponent {
    type V = ComponentView;

    closed spec fn view(&self) -> ComponentView {
        match self {
            ValueComponent::Literal(text) => ComponentView::Literal(text@),
            ValueComponent::Capture(name) => ComponentView::Capture(name@),
        }
    }
}

/// The index of the first double-quote token at or after `i`, or the
/// number of tokens if none follows.
pub open spec fn closing_quote(tokens: Seq<Token>, i: int) -> int
    decreases tokens.len() - i,
{
    if i < 0 || i >= tokens.len() {
        tokens.len() as int
    } else if tokens[i].tok_type == TokenType::DoubleQuote {
        i
    } else {
        closing_quote(tokens, i + 1)
    }
}

/// The index of the first token at or after `i` that is no text, or the
/// number of tokens if only text follows.
pub open spec fn text_tokens_end(tokens: Seq<Token>, i: int) -> int
    decreases tokens.len() - i,
{
    if i < 0 || i >= tokens.len() {
        tokens.len() as int
    } else if tokens[i].tok_type == TokenType::Text {
        text_tokens_end(tokens, i + 1)
    } else {
        i
    }
}

/// The text that the tokens from `i` up to `end` span in `source`: the
/// characters from the byte offset at which the first begins to the byte
/// offset at which the last ends; empty where there is no such token.
pub open spec fn span_text(source: Seq<char>, tokens: Seq<Token>, i: int, end: int) -> Seq<char> {
    if 0 <= i < end <= tokens.len() {
        byte_slice(source, tokens[i].lexeme_start as int, tokens[end - 1].lexeme_end as int)
    } else {
        Seq::empty()
    }
}

/// `offsets` holds the byte offset of every position of `source`.
pub open spec fn offsets_of(source: Seq<char>, offsets: Seq<usize>) -> bool {
    &&& offsets.len() == source.len() + 1
    &&& forall|i: int| 0 <= i <= source.len() ==> offsets[i] == byte_offset(source, i)
}

pub proof fn lemma_closing_quote_bounds(tokens: Seq<Token>, i: int)
    requires
        0 <= i <= tokens.len(),
    ensures
        i <= closing_quote(tokens, i) <= tokens.len(),
    decreases tokens.len() - i,
{
    if i < tokens.len() && tokens[i].tok_type != TokenType::DoubleQuote {
        lemma_closing_quote_bounds(tokens, i + 1);
    }
}

pub proof fn lemma_text_tokens_end_bounds(tokens: Seq<Token>, i: int)
    requires
        0 <= i <= tokens.len(),
    ensures
        i <= text_tokens_end(tokens, i) <= tokens.len(),
        i < tokens.len() && tokens[i].tok_type == TokenType::Text ==> i < text_tokens_end(
            tokens,
            i,
        ),
    decreases tokens.len() - i,
{
    if i < tokens.len() && tokens[i].tok_type == TokenType::Text {
        lemma_text_tokens_end_bounds(tokens, i + 1);
    }
}

/// The components of the pattern written in the tokens from index `i` on. A double quote opens a literal, which runs to the next double
/// quote; a text token opens a capture, which runs over the text tokens
/// that follow; the token after a literal's closing quote, and the token
/// after a capture, separate components and are passed over, as is every
/// other token.
pub open spec fn components_from(source: Seq<char>, tokens: Seq<Token>, i: int) -> Seq<
    ComponentView,
>
    decreases tokens.len() - i,
{
    if i < 0 || i >= tokens.len() {
        Seq::empty()
    } else if tokens[i].tok_type == TokenType::DoubleQuote {
        proof {
            lemma_closing_quote_bounds(tokens, i + 1);
        }
        let close = closing_quote(tokens, i + 1);
        seq![ComponentView::Literal(span_text(source, tokens, i + 1, close))] + (if close + 2
            <= tokens.len() {
            components_from(source, tokens, close + 2)
        } else {
            Seq::empty()
        })
    } else if tokens[i].tok_type == TokenType::Text {
        proof {
            lemma_text_tokens_end_bounds(tokens, i);
        }
        let end = text_tokens_end(tokens, i);
        seq![ComponentView::Capture(span_text(source, tokens, i, end))] + (if end + 1
            <= tokens.len() {
            components_from(source, tokens, end + 1)
        } else {
            Seq::empty()
        })
    } else {
        components_from(source, tokens, i + 1)
    }
}

/// The text that a component contributes to a generated text: a literal
/// itself, a capture what `captures` holds under its name, or nothing.
pub open spec fn piece(component: ComponentView, captures: Captures) -> Seq<char> {
    match component {
        ComponentView::Literal(text) => text,
        ComponentView::Capture(name) => if captures.dom().contains(name) {
            captures[name]
        } else {
            Seq::empty()
        },
    }
}

/// The text generated from the first `n` components: their pieces, one
/// after another.
pub open spec fn generated_prefix(
    components: Seq<ComponentView>,
    captures: Captures,
    n: int,
) -> Seq<char>
    decreases n,
{
    if n <= 0 || n > components.len() {
        Seq::empty()
    } else {
        generated_prefix(components, captures, n - 1) + piece(components[n - 1], captures)
    }
}

/// The text generated from a pattern and captures: the pieces of all its
/// components, in pattern order.
pub open spec fn generated(components: Seq<ComponentView>, captures: Captures) -> Seq<char> {
    generated_prefix(components, captures, components.len() as int)
}

/// The captures of `input` under the components from index `k` on, when
/// the last literal matched ended at `last_end`, the capture `pending` has
/// not been closed yet and `found` was captured so far.
///
/// A literal must occur in `input`, and its leftmost occurrence must begin
/// at or after `last_end`; else nothing is captured. It closes the pending
/// capture, which receives the text between the two literals without
/// surrounding whitespace, unless that text is empty. A capture that no
/// literal closes receives the rest of the input.
pub open spec fn capture_from(
    components: Seq<ComponentView>,
    input: Seq<char>,
    k: int,
    last_end: int,
    pending: Option<Seq<char>>,
    found: Captures,
) -> Option<Captures>
    decreases components.len() - k,
{
    if k < 0 || k >= components.len() {
        match pending {
            Some(name) => Some(
                found.insert(name, trimmed(input.subrange(last_end, input.len() as int))),
            ),
            None => Some(found),
        }
    } else {
        match components[k] {
            ComponentView::Literal(text) => match substring_position(input, text) {
                None => None,
                Some((start, end)) => if start < last_end {
                    None
                } else {
                    capture_from(
                        components,
                        input,
                        k + 1,
                        end,
                        None,
                        closed_capture(input, last_end, start, pending, found),
                    )
                },
            },
            ComponentView::Capture(name) => capture_from(
                components,
                input,
                k + 1,
                last_end,
                Some(name),
                found,
            ),
        }
    }
}

/// `found` after a literal that begins at `start` has closed `pending`.
pub open spec fn closed_capture(
    input: Seq<char>,
    last_end: int,
    start: int,
    pending: Option<Seq<char>>,
    found: Captures,
) -> Captures {
    match pending {
        Some(name) if start > last_end => found.insert(
            name,
            trimmed(input.subrange(last_end, start)),
        ),
        _ => found,
    }
}

/// The captures of `input` under a pattern, if the pattern matches.
pub open spec fn captured(components: Seq<ComponentView>, input: Seq<char>) -> Option<Captures> {
    capture_from(components, input, 0, 0, None, Map::empty())
}

/// A pattern: literal anchors and named captures, in pattern order.
#[derive(Debug)]
pub struct ValueMatcher {
    components: Vec<ValueComponent>,
}

impl View for ValueMatcher {
    type V = Seq<ComponentView>;

    closed spec fn view(&self) -> Seq<ComponentView> {
        self.components@.map_values(|c: ValueComponent| c@)
    }
}

/// The text that the tokens from `index` up to `end` span in `source`.
fn text_of_span(
    source: &Vec<char>,
    offsets: &Vec<usize>,
    tokens: &Vec<Token>,
    index: usize,
    end: usize,
) -> (s: String)
    requires
        offsets_of(source@, offsets@),
    ensures
        s@ == span_text(source@, tokens@, index as int, end as int),
{
    if index < end && end <= tokens.len() {
        let from: usize = char_index_at(offsets, tokens[index].lexeme_start, Ghost(source@));
        let to: usize = char_index_at(offsets, tokens[end - 1].lexeme_end, Ghost(source@));
        string_of(source, from, to)
    } else {
        String::new()
    }
}

/// The literal whose first token is at `index`, and the index after its
/// closing quote.
fn parse_literal(
    source: &Vec<char>,
    offsets: &Vec<usize>,
    tokens: &Vec<Token>,
    index: usize,
) -> (r: (String, usize))
    requires
        index <= tokens.len(),
        offsets_of(source@, offsets@),
    ensures
        r.0@ == span_text(source@, tokens@, index as int, closing_quote(tokens@, index as int)),
        r.1 == closing_quote(tokens@, index as int) + 1 || (r.1 == tokens.len() && closing_quote(
            tokens@,
            index as int,
        ) == tokens.len()),
        index <= r.1 <= tokens.len(),
{
    let n: usize = tokens.len();
    let mut close: usize = index;
    while close < n
        invariant
            n == tokens.len(),
            offsets_of(source@, offsets@),
            index <= close <= n,
            closing_quote(tokens@, close as int) == closing_quote(tokens@, index as int),
        decreases n - close,
    {
        match tokens[close].tok_type {
            TokenType::DoubleQuote => {
                return (text_of_span(source, offsets, tokens, index, close), close + 1);
            },
            _ => {},
        }
        close = close + 1;
    }
    (text_of_span(source, offsets, tokens, index, n), n)
}

/// The capture whose first token is at `index`, and the index of the
/// first token after it.
fn parse_capture(
    source: &Vec<char>,
    offsets: &Vec<usize>,
    tokens: &Vec<Token>,
    index: usize,
) -> (r: (String, usize))
    requires
        index <= tokens.len(),
        offsets_of(source@, offsets@),
    ensures
        r.0@ == span_text(source@, tokens@, index as int, text_tokens_end(tokens@, index as int)),
        r.1 == text_tokens_end(tokens@, index as int),
        index <= r.1 <= tokens.len(),
{
    let n: usize = tokens.len();
    let mut end: usize = index;
    while end < n
        invariant
            n == tokens.len(),
            offsets_of(source@, offsets@),
            index <= end <= n,
            text_tokens_end(tokens@, end as int) == text_tokens_end(tokens@, index as int),
        decreases n - end,
    {
        match tokens[end].tok_type {
            TokenType::Text => {},
            _ => {
                return (text_of_span(source, offsets, tokens, index, end), end);
            },
        }
        end = end + 1;
    }
    (text_of_span(source, offsets, tokens, index, n), n)
}

impl ValueMatcher {
    /// The pattern written in `source`, whose tokens are `tokens`.
    pub fn parse(source: &str, tokens: &Vec<Token>) -> (m: ValueMatcher)
        ensures
            m@ == components_from(source@, tokens@, 0),
    {
        let (chars, offsets): (Vec<char>, Vec<usize>) = char_offsets(source);
        let n: usize = tokens.len();
        let mut index: usize = 0;
        let mut components: Vec<ValueComponent> = Vec::new();
        let ghost all = components_from(source@, tokens@, 0);
        assert(components@.map_values(|c: ValueComponent| c@) =~= Seq::<ComponentView>::empty());
        while index < n
            invariant
                n == tokens.len(),
                chars@ == source@,
                offsets_of(source@, offsets@),
                all == components_from(source@, tokens@, 0),
                all == components@.map_values(|c: ValueComponent| c@) + components_from(
                    source@,
                    tokens@,
                    index as int,
                ),
            decreases n - index,
        {
            let ghost before = components@.map_values(|c: ValueComponent| c@);
            match tokens[index].tok_type {
                TokenType::DoubleQuote => {
                    let (val, idx): (String, usize) = parse_literal(&chars, &offsets, tokens, index + 1);
                    let component = ValueComponent::Literal(val);
                    proof {
                        lemma_closing_quote_bounds(tokens@, index + 1);
                        let close = closing_quote(tokens@, index + 1);
                        let rest = if close + 2 <= tokens@.len() {
                            components_from(source@, tokens@, close + 2)
                        } else {
                            Seq::empty()
                        };
                        assert(components@.push(component).map_values(|c: ValueComponent| c@)
                            =~= before.push(component@));
                        assert(before.push(component@) + rest =~= before + (seq![component@]
                            + rest));
                    }
                    components.push(component);
                    if idx >= n {
                        proof {
                            assert(all =~= components@.map_values(|c: ValueComponent| c@));
                        }
                        return ValueMatcher { components };
                    }
                    index = idx + 1;
                },
                TokenType::Text => {
                    let (val, idx): (String, usize) = parse_capture(&chars, &offsets, tokens, index);
                    let component = ValueComponent::Capture(val);
                    proof {
                        lemma_text_tokens_end_bounds(tokens@, index as int);
                        let end = text_tokens_end(tokens@, index as int);
                        let rest = if end + 1 <= tokens@.len() {
                            components_from(source@, tokens@, end + 1)
                        } else {
                            Seq::empty()
                        };
                        assert(components@.push(component).map_values(|c: ValueComponent| c@)
                            =~= before.push(component@));
                        assert(before.push(component@) + rest =~= before + (seq![component@]
                            + rest));
                    }
                    components.push(component);
                    if idx >= n {
                        proof {
                            assert(all =~= components@.map_values(|c: ValueComponent| c@));
                        }
                        return ValueMatcher { components };
                    }
                    index = idx + 1;
                },
                _ => {
                    index = index + 1;
                },
            }
        }
        proof {
            assert(all =~= components@.map_values(|c: ValueComponent| c@));
        }
        ValueMatcher { components }
    }

    /// The text generated from this pattern and `captures`: every literal
    /// verbatim and, for every capture, what `captures` holds under its
    /// name, or nothing where it holds nothing, in pattern order.
    pub fn generate(&self, captures: &CaptureMap) -> (out: String)
        ensures
            out@ == generated(self@, captures@),
    {
        let mut out_string = String::new();
        let n: usize = self.components.len();
        let mut i: usize = 0;
        assert(out_string@ =~= generated_prefix(self@, captures@, 0));
        while i < n
            invariant
                n == self.components@.len(),
                n == self@.len(),
                i <= n,
                out_string@ == generated_prefix(self@, captures@, i as int),
            decreases n - i,
        {
            let ghost before = out_string@;
            match &self.components[i] {
                ValueComponent::Literal(literal) => {
                    push_str(&mut out_string, literal.as_str());
                },
                ValueComponent::Capture(capture) => {
                    if let Some(val) = captures.get(capture.as_str()) {
                        push_str(&mut out_string, val.as_str());
                    }
                },
            }
            proof {
                assert(self@[i as int] == self.components@[i as int]@);
                assert(out_string@ =~= before + piece(self@[i as int], captures@));
            }
            i = i + 1;
        }
        out_string
    }

    /// The captures of `input` under this pattern, or `None` where the
    /// pattern does not match: where a literal does not occur in `input`,
    /// or occurs first before the end of the literal matched before it.
    pub fn capture(&self, input: &str) -> (r: Option<CaptureMap>)
        ensures
            match r {
                Some(captures) => captured(self@, input@) == Some(captures@),
                None => captured(self@, input@) is None,
            },
    {
        let chars = to_chars(input);
        let mut captures = CaptureMap::new();
        let mut last_end: usize = 0;
        let mut capture_pending: Option<String> = None;
        let n: usize = self.components.len();
        let mut k: usize = 0;
        while k < n
            invariant
                n == self.components@.len(),
                n == self@.len(),
                k <= n,
                chars@ == input@,
                last_end <= chars@.len(),
                captured(self@, input@) == capture_from(
                    self@,
                    input@,
                    k as int,
                    last_end as int,
                    pending_view(capture_pending),
                    captures@,
                ),
            decreases n - k,
        {
            proof {
                assert(self@[k as int] == self.components@[k as int]@);
            }
            match &self.components[k] {
                ValueComponent::Literal(literal) => {
                    let literal_chars = to_chars(literal.as_str());
                    match position_in(&chars, &literal_chars) {
                        None => {
                            return None;
                        },
                        Some((start, end)) => {
                            if start < last_end {
                                return None;
                            }
                            proof {
                                lemma_occurrence_from(input@, literal@, 0);
                            }
                            if let Some(name) = capture_pending {
                                if start > last_end {
                                    let value = trimmed_string(&chars, last_end, start);
                                    captures.insert(name, value);
                                }
                            }
                            capture_pending = None;
                            last_end = end;
                        },
                    }
                },
                ValueComponent::Capture(capture) => {
                    capture_pending = Some(capture.clone());
                },
            }
            k = k + 1;
        }
        if let Some(name) = capture_pending {
            let value = trimmed_string(&chars, last_end, chars.len());
            captures.insert(name, value);
        }
        Some(captures)
    }
}

/// The name of a pending capture as a sequence of characters.
pub open spec fn pending_view(pending: Option<String>) -> Option<Seq<char>> {
    match pending {
        Some(name) => Some(name@),
        None => None,
    }
}

/// Appends the characters of `text` to `out`.
fn push_str(out: &mut String, text: &str)
    ensures
        final(out)@ == old(out)@ + text@,
{
    let chars = to_chars(text);
    let n: usize = chars.len();
    let mut i: usize = 0;
    assert(out@ =~= old(out)@ + chars@.take(0));
    while i < n
        invariant
            n == chars@.len(),
            i <= n,
            out@ == old(out)@ + chars@.take(i as int),
        decreases n - i,
    {
        out.push(chars[i]);
        proof {
            assert(chars@.take(i + 1) =~= chars@.take(i as int).push(chars@[i as int]));
            assert(out@ =~= old(out)@ + chars@.take(i + 1));
        }
        i = i + 1;
    }
    assert(chars@.take(n as int) =~= chars@);
}

/// Where the literal of component `c` first occurs in `input`; `None` for
/// a capture and for a literal that does not occur.
pub open spec fn literal_position(c: ComponentView, input: Seq<char>) -> Option<(int, int)> {
    match c {
        ComponentView::Literal(text) => substring_position(input, text),
        ComponentView::Capture(_) => None,
    }
}

/// The first occurrence of literal `a` ends no later than the first
/// occurrence of literal `b` begins.
pub open spec fn in_order(a: ComponentView, b: ComponentView, input: Seq<char>) -> bool {
    match (literal_position(a, input), literal_position(b, input)) {
        (Some((start_a, end_a)), Some((start_b, end_b))) => end_a <= start_b,
        _ => false,
    }
}

/// `value` is the text of some span of `input`, without the whitespace
/// around it.
pub open spec fn is_trimmed_span(input: Seq<char>, value: Seq<char>) -> bool {
    exists|a: int, b: int| 0 <= a <= b <= input.len() && value == trimmed(input.subrange(a, b))
}

proof fn lemma_capture_from_orders(
    components: Seq<ComponentView>,
    input: Seq<char>,
    k: int,
    last_end: int,
    pending: Option<Seq<char>>,
    found: Captures,
)
    requires
        0 <= k,
        capture_from(components, input, k, last_end, pending, found) is Some,
    ensures
        forall|j: int|
            k <= j < components.len() && (#[trigger] components[j]) is Literal ==> match literal_position(
                components[j],
                input,
            ) {
                Some((start, end)) => last_end <= start,
                None => false,
            },
        forall|i: int, j: int|
            k <= i < j < components.len() && (#[trigger] components[i]) is Literal && (
            #[trigger] components[j]) is Literal ==> in_order(components[i], components[j], input),
    decreases components.len() - k,
{
    if k < components.len() {
        match components[k] {
            ComponentView::Literal(text) => {
                let (start, end) = substring_position(input, text)->0;
                lemma_capture_from_orders(
                    components,
                    input,
                    k + 1,
                    end,
                    None,
                    closed_capture(input, last_end, start, pending, found),
                );
            },
            ComponentView::Capture(name) => {
                lemma_capture_from_orders(components, input, k + 1, last_end, Some(name), found);
            },
        }
    }
}

/// Where a pattern matches, its literals occur in the input in pattern
/// order and without overlap: of two literals of the pattern, the first
/// occurrence of the earlier one ends before the first occurrence of the
/// later one begins.
pub proof fn lemma_capture_orders_literals(
    components: Seq<ComponentView>,
    input: Seq<char>,
    i: int,
    j: int,
)
    requires
        captured(components, input) is Some,
        0 <= i < j < components.len(),
        components[i] is Literal,
        components[j] is Literal,
    ensures
        in_order(components[i], components[j], input),
{
    lemma_capture_from_orders(components, input, 0, 0, None, Map::empty());
}

/// A pattern does not match where two of its literals would have to match
/// out of pattern order: where one of them does not occur in the input, or
/// the later one occurs first before the end of the earlier one.
pub proof fn lemma_capture_fails_out_of_order(
    components: Seq<ComponentView>,
    input: Seq<char>,
    i: int,
    j: int,
)
    requires
        0 <= i < j < components.len(),
        components[i] is Literal,
        components[j] is Literal,
        !in_order(components[i], components[j], input),
    ensures
        captured(components, input) is None,
{
    if captured(components, input) is Some {
        lemma_capture_orders_literals(components, input, i, j);
    }
}

proof fn lemma_capture_from_spans(
    components: Seq<ComponentView>,
    input: Seq<char>,
    k: int,
    last_end: int,
    pending: Option<Seq<char>>,
    found: Captures,
)
    requires
        0 <= k,
        0 <= last_end <= input.len(),
        forall|name: Seq<char>| #[trigger]
            found.dom().contains(name) ==> is_trimmed_span(input, found[name]),
        capture_from(components, input, k, last_end, pending, found) is Some,
    ensures
        forall|name: Seq<char>| #[trigger]
            capture_from(components, input, k, last_end, pending, found)->0.dom().contains(name)
                ==> is_trimmed_span(
                input,
                capture_from(components, input, k, last_end, pending, found)->0[name],
            ),
    decreases components.len() - k,
{
    if k >= components.len() {
        match pending {
            Some(name) => {
                let value = trimmed(input.subrange(last_end, input.len() as int));
                assert(is_trimmed_span(input, value));
            },
            None => {},
        }
    } else {
        match components[k] {
            ComponentView::Literal(text) => {
                let (start, end) = substring_position(input, text)->0;
                lemma_occurrence_from(input, text, 0);
                let next = closed_capture(input, last_end, start, pending, found);
                match pending {
                    Some(name) => {
                        if start > last_end {
                            let value = trimmed(input.subrange(last_end, start));
                            assert(is_trimmed_span(input, value));
                        }
                    },
                    None => {},
                }
                lemma_capture_from_spans(components, input, k + 1, end, None, next);
            },
            ComponentView::Capture(name) => {
                lemma_capture_from_spans(components, input, k + 1, last_end, Some(name), found);
            },
        }
    }
}

/// Every captured text is the text of a span of the input, without the
/// whitespace around it.
pub proof fn lemma_captures_are_spans(
    components: Seq<ComponentView>,
    input: Seq<char>,
    name: Seq<char>,
)
    requires
        captured(components, input) is Some,
        captured(components, input)->0.dom().contains(name),
    ensures
        is_trimmed_span(input, captured(components, input)->0[name]),
{
    lemma_capture_from_spans(components, input, 0, 0, None, Map::empty());
}

proof fn lemma_generated_prefix_grows(
    components: Seq<ComponentView>,
    captures: Captures,
    k: int,
    n: int,
)
    requires
        0 <= k <= n <= components.len(),
    ensures
        generated_prefix(components, captures, k).len() <= generated_prefix(
            components,
            captures,
            n,
        ).len(),
        generated_prefix(components, captures, n).subrange(
            0,
            generated_prefix(components, captures, k).len() as int,
        ) == generated_prefix(components, captures, k),
    decreases n - k,
{
    if k < n {
        lemma_generated_prefix_grows(components, captures, k, n - 1);
        let shorter = generated_prefix(components, captures, n - 1);
        let longer = generated_prefix(components, captures, n);
        assert(longer == shorter + piece(components[n - 1], captures));
        assert(longer.subrange(0, generated_prefix(components, captures, k).len() as int)
            =~= shorter.subrange(0, generated_prefix(components, captures, k).len() as int));
    } else {
        assert(generated_prefix(components, captures, n).subrange(
            0,
            generated_prefix(components, captures, k).len() as int,
        ) =~= generated_prefix(components, captures, k));
    }
}

/// The generated text holds the piece of every component verbatim, in
/// pattern order: every literal of the pattern, and what the captures
/// hold under the name of every capture, each right after the pieces of
/// the components before it.
pub proof fn lemma_generated_holds_pieces(
    components: Seq<ComponentView>,
    captures: Captures,
    k: int,
)
    requires
        0 <= k < components.len(),
    ensures
        occurs_at(
            generated(components, captures),
            piece(components[k], captures),
            generated_prefix(components, captures, k).len() as int,
        ),
{
    let before = generated_prefix(components, captures, k);
    let with_piece = generated_prefix(components, captures, k + 1);
    let whole = generated(components, captures);
    let p = piece(components[k], captures);
    lemma_generated_prefix_grows(components, captures, k + 1, components.len() as int);
    assert(with_piece == before + p);
    let from = before.len() as int;
    let to = from + p.len();
    assert(whole.subrange(from, to) =~= whole.subrange(0, with_piece.len() as int).subrange(
        from,
        to,
    ));
    assert(with_piece.subrange(from, to) =~= p);
}

} // verus!
