//! Token lists that render alike, and the law of the comment that stands
//! alone on its line, whatever stands before and after it in the template.
//!
//! The law is proved by following two parsers, one in the template with the
//! comment's line and one in the template without it, from the end of that
//! line on: they stay in step, and what they make of the rest differs only
//! in how text is cut into tokens.

use vstd::prelude::*;
use crate::data::Data;
use crate::error::Error;
use crate::laws::{law_indent_text_concat, law_render_one_token, lemma_render_text_tokens};
use crate::parser_laws::{
    comment_line,
    is_padding,
    law_standalone_comment_line,
    lemma_last_open_is_last,
    lemma_run_plain,
    text_tokens,
    trimmed_tokens,
};
use crate::parser_model::{
    default_ctag,
    default_otag,
    is_blank,
    last_open,
    lemma_default_delimiters,
    lemma_line_tail,
    line_tail,
    parse_spec,
    trailing_blank,
    ParserModel,
    ParserState,
};
use crate::compiler::compile_spec;
use crate::render_model::{
    find_spec,
    indent_text,
    render_items,
    render_token,
    render_tokens,
    Call,
    Cursor,
    Env,
    MAX_DEPTH,
};
use crate::template::render_template;
use crate::token::{inner_source, TokenClassView, TokenView};

verus! {

/// Holds of two token lists that were read from the same source and render
/// to the same text, whatever they are rendered against.
pub open spec fn alike(a: Seq<TokenView>, b: Seq<TokenView>) -> bool {
    &&& inner_source(a) == inner_source(b)
    &&& forall|stack: Seq<Data>, env: Env, indent: Seq<char>, at: Cursor, depth: nat| #[trigger]
        render_tokens(a, stack, env, indent, at, depth) == render_tokens(
            b,
            stack,
            env,
            indent,
            at,
            depth,
        )
}

/// The source of two token lists, one after the other, is their sources
/// one after the other.
pub proof fn lemma_source_concat(a: Seq<TokenView>, b: Seq<TokenView>)
    ensures
        inner_source(a + b) == inner_source(a) + inner_source(b),
    decreases b.len(),
{
    if b.len() == 0 {
        assert(a + b =~= a);
        assert(inner_source(a) + Seq::<char>::empty() =~= inner_source(a));
    } else {
        assert((a + b).drop_last() =~= a + b.drop_last());
        assert((a + b).last() == b.last());
        lemma_source_concat(a, b.drop_last());
        assert(inner_source(a + b) =~= inner_source(a) + inner_source(b));
    }
}

/// Two token lists, one after the other, render as the first followed by
/// the second.
pub proof fn lemma_render_concat(
    a: Seq<TokenView>,
    b: Seq<TokenView>,
    stack: Seq<Data>,
    env: Env,
    indent: Seq<char>,
    at: Cursor,
    depth: nat,
)
    ensures
        render_tokens(a + b, stack, env, indent, at, depth) == ({
            let first = render_tokens(a, stack, env, indent, at, depth);
            first.followed_by(render_tokens(b, stack, env, indent, first.at, depth))
        }),
    decreases b.len(),
{
    let first = render_tokens(a, stack, env, indent, at, depth);
    if b.len() == 0 {
        assert(a + b =~= a);
        assert(first.out + Seq::<char>::empty() =~= first.out);
    } else {
        assert((a + b).drop_last() =~= a + b.drop_last());
        assert((a + b).last() == b.last());
        lemma_render_concat(a, b.drop_last(), stack, env, indent, at, depth);
        let mid = render_tokens(b.drop_last(), stack, env, indent, first.at, depth);
        let last = render_token(b.last(), stack, env, indent, mid.at, depth);
        assert((first.out + mid.out) + last.out =~= first.out + (mid.out + last.out));
    }
}

/// Lists that are alike, each followed by one of two lists that are alike,
/// are alike.
pub proof fn lemma_alike_concat(
    a: Seq<TokenView>,
    b: Seq<TokenView>,
    c: Seq<TokenView>,
    d: Seq<TokenView>,
)
    requires
        alike(a, b),
        alike(c, d),
    ensures
        alike(a + c, b + d),
{
    lemma_source_concat(a, c);
    lemma_source_concat(b, d);
    assert forall|stack: Seq<Data>, env: Env, indent: Seq<char>, at: Cursor, depth: nat| #[trigger]
        render_tokens(a + c, stack, env, indent, at, depth) == render_tokens(
            b + d,
            stack,
            env,
            indent,
            at,
            depth,
        ) by {
        lemma_render_concat(a, c, stack, env, indent, at, depth);
        lemma_render_concat(b, d, stack, env, indent, at, depth);
        let first = render_tokens(a, stack, env, indent, at, depth);
        assert(first == render_tokens(b, stack, env, indent, at, depth));
        assert(render_tokens(c, stack, env, indent, first.at, depth) == render_tokens(
            d,
            stack,
            env,
            indent,
            first.at,
            depth,
        ));
    }
}

/// Being alike goes from one pair to the next.
pub proof fn lemma_alike_trans(a: Seq<TokenView>, b: Seq<TokenView>, c: Seq<TokenView>)
    requires
        alike(a, b),
        alike(b, c),
    ensures
        alike(a, c),
{
    assert forall|stack: Seq<Data>, env: Env, indent: Seq<char>, at: Cursor, depth: nat| #[trigger]
        render_tokens(a, stack, env, indent, at, depth) == render_tokens(
            c,
            stack,
            env,
            indent,
            at,
            depth,
        ) by {
        assert(render_tokens(a, stack, env, indent, at, depth) == render_tokens(
            b,
            stack,
            env,
            indent,
            at,
            depth,
        ));
        assert(render_tokens(b, stack, env, indent, at, depth) == render_tokens(
            c,
            stack,
            env,
            indent,
            at,
            depth,
        ));
    }
}

/// One text token is like the tokens of its text: an empty text renders
/// nothing.
pub proof fn lemma_alike_one_text(t: Seq<char>)
    ensures
        alike(seq![TokenView::Text(t)], text_tokens(t)),
{
    let one = seq![TokenView::Text(t)];
    assert(one.drop_last() =~= Seq::<TokenView>::empty());
    assert(one.last() == TokenView::Text(t));
    assert(inner_source(one) =~= t) by {
        reveal_with_fuel(inner_source, 2);
    }
    assert(inner_source(text_tokens(t)) =~= t) by {
        reveal_with_fuel(inner_source, 2);
        if t.len() > 0 {
            assert(text_tokens(t) =~= one);
        }
    }
    assert forall|stack: Seq<Data>, env: Env, indent: Seq<char>, at: Cursor, depth: nat| #[trigger]
        render_tokens(one, stack, env, indent, at, depth) == render_tokens(
            text_tokens(t),
            stack,
            env,
            indent,
            at,
            depth,
        ) by {
        lemma_render_text_tokens(t, stack, env, indent, at, depth);
        reveal_with_fuel(render_tokens, 2);
        assert(Seq::<char>::empty() + indent_text(t, indent, at.line_start) =~= indent_text(
            t,
            indent,
            at.line_start,
        ));
    }
}

/// The tokens of two texts, one after the other, are like the tokens of
/// the two texts put together.
pub proof fn lemma_alike_texts(a: Seq<char>, b: Seq<char>)
    ensures
        alike(text_tokens(a) + text_tokens(b), text_tokens(a + b)),
{
    lemma_source_concat(text_tokens(a), text_tokens(b));
    lemma_alike_one_text(a);
    lemma_alike_one_text(b);
    lemma_alike_one_text(a + b);
    assert(inner_source(seq![TokenView::Text(a)]) =~= a) by {
        reveal_with_fuel(inner_source, 2);
    }
    assert(inner_source(seq![TokenView::Text(b)]) =~= b) by {
        reveal_with_fuel(inner_source, 2);
    }
    assert(inner_source(seq![TokenView::Text(a + b)]) =~= a + b) by {
        reveal_with_fuel(inner_source, 2);
    }
    assert forall|stack: Seq<Data>, env: Env, indent: Seq<char>, at: Cursor, depth: nat| #[trigger]
        render_tokens(text_tokens(a) + text_tokens(b), stack, env, indent, at, depth)
            == render_tokens(text_tokens(a + b), stack, env, indent, at, depth) by {
        lemma_render_concat(text_tokens(a), text_tokens(b), stack, env, indent, at, depth);
        lemma_render_text_tokens(a, stack, env, indent, at, depth);
        let first = render_tokens(text_tokens(a), stack, env, indent, at, depth);
        lemma_render_text_tokens(b, stack, env, indent, first.at, depth);
        lemma_render_text_tokens(a + b, stack, env, indent, at, depth);
        law_indent_text_concat(a, b, indent, at.line_start);
    }
}

/// The children of a section render alike for each item of a list where
/// they are alike.
proof fn lemma_items_alike(
    c1: Seq<TokenView>,
    c2: Seq<TokenView>,
    items: Seq<Data>,
    n: nat,
    stack: Seq<Data>,
    env: Env,
    indent: Seq<char>,
    at: Cursor,
    depth: nat,
)
    requires
        alike(c1, c2),
    ensures
        render_items(c1, items, n, stack, env, indent, at, depth) == render_items(
            c2,
            items,
            n,
            stack,
            env,
            indent,
            at,
            depth,
        ),
    decreases n,
{
    if n == 0 || n > items.len() {
    } else {
        lemma_items_alike(c1, c2, items, (n - 1) as nat, stack, env, indent, at, depth);
        let first = render_items(c1, items, (n - 1) as nat, stack, env, indent, at, depth);
        assert(render_tokens(c1, stack.push(items[n - 1]), env, indent, first.at, depth)
            == render_tokens(c2, stack.push(items[n - 1]), env, indent, first.at, depth));
    }
}

/// The section that children are folded into.
pub open spec fn section_of(
    path: Seq<Seq<char>>,
    inverted: bool,
    children: Seq<TokenView>,
    otag: Seq<char>,
    osection: Seq<char>,
    csection: Seq<char>,
    ctag: Seq<char>,
) -> TokenView {
    TokenView::Section(
        path,
        inverted,
        children,
        otag,
        osection,
        inner_source(children),
        csection,
        ctag,
    )
}

/// Two sections that differ in their children only are alike where their
/// children are.
pub proof fn lemma_alike_section(
    path: Seq<Seq<char>>,
    inverted: bool,
    c1: Seq<TokenView>,
    c2: Seq<TokenView>,
    otag: Seq<char>,
    osection: Seq<char>,
    csection: Seq<char>,
    ctag: Seq<char>,
)
    requires
        alike(c1, c2),
    ensures
        alike(
            seq![section_of(path, inverted, c1, otag, osection, csection, ctag)],
            seq![section_of(path, inverted, c2, otag, osection, csection, ctag)],
        ),
{
    let s1 = section_of(path, inverted, c1, otag, osection, csection, ctag);
    let s2 = section_of(path, inverted, c2, otag, osection, csection, ctag);
    assert(seq![s1].drop_last() =~= Seq::<TokenView>::empty());
    assert(seq![s2].drop_last() =~= Seq::<TokenView>::empty());
    assert(inner_source(seq![s1]) == inner_source(seq![s2])) by {
        reveal_with_fuel(inner_source, 2);
    }
    assert forall|stack: Seq<Data>, env: Env, indent: Seq<char>, at: Cursor, depth: nat| #[trigger]
        render_tokens(seq![s1], stack, env, indent, at, depth) == render_tokens(
            seq![s2],
            stack,
            env,
            indent,
            at,
            depth,
        ) by {
        law_render_one_token(s1, stack, env, indent, at, depth);
        law_render_one_token(s2, stack, env, indent, at, depth);
        let found = find_spec(stack, path);
        assert(render_tokens(c1, stack, env, indent, at, depth) == render_tokens(
            c2,
            stack,
            env,
            indent,
            at,
            depth,
        ));
        match found {
            Some(value) => {
                assert(render_tokens(c1, stack.push(value), env, indent, at, depth)
                    == render_tokens(c2, stack.push(value), env, indent, at, depth));
                match value {
                    Data::Vec(items) => {
                        lemma_items_alike(
                            c1,
                            c2,
                            items@,
                            items@.len(),
                            stack,
                            env,
                            indent,
                            at,
                            depth,
                        );
                    },
                    Data::Opt(Some(inner)) => {
                        assert(render_tokens(c1, stack.push(*inner), env, indent, at, depth)
                            == render_tokens(c2, stack.push(*inner), env, indent, at, depth));
                    },
                    _ => {},
                }
            },
            None => {},
        }
        assert(render_token(s1, stack, env, indent, at, depth) == render_token(
            s2,
            stack,
            env,
            indent,
            at,
            depth,
        ));
    }
}

/// Holds of tokens among which no section is open.
pub open spec fn no_open(a: Seq<TokenView>) -> bool {
    forall|k: int| 0 <= k < a.len() ==> !(#[trigger] a[k] is IncompleteSection)
}

/// Holds of the tokens `x` and `y` of two parsers that have the same
/// sections open, where what each section holds so far is alike in both;
/// `v` stands for tokens that the second parser has yet to add.
pub open spec fn related(x: Seq<TokenView>, y: Seq<TokenView>, v: Seq<TokenView>) -> bool
    decreases x.len(),
{
    let i = last_open(x);
    let j = last_open(y);
    &&& alike(x.skip(i + 1), y.skip(j + 1) + v)
    &&& (i < 0) == (j < 0)
    &&& (0 <= i < x.len() && 0 <= j < y.len()) ==> (x[i] == y[j] && related(
        x.take(i),
        y.take(j),
        Seq::empty(),
    ))
}

/// Tokens among which no section is open leave the last open section
/// where it is.
pub proof fn lemma_open_after(x: Seq<TokenView>, a: Seq<TokenView>)
    requires
        no_open(a),
    ensures
        last_open(x + a) == last_open(x),
    decreases a.len(),
{
    if a.len() == 0 {
        assert(x + a =~= x);
    } else {
        assert((x + a).drop_last() =~= x + a.drop_last());
        assert((x + a).last() == a[a.len() - 1]);
        assert forall|k: int| 0 <= k < a.drop_last().len() implies !(
        #[trigger] a.drop_last()[k] is IncompleteSection) by {
            assert(a.drop_last()[k] == a[k]);
        }
        lemma_open_after(x, a.drop_last());
    }
}

/// Tokens that are related stay so when tokens are added to both that
/// leave what the last open section holds alike.
pub proof fn lemma_related_extend(
    x: Seq<TokenView>,
    y: Seq<TokenView>,
    v: Seq<TokenView>,
    a: Seq<TokenView>,
    b: Seq<TokenView>,
)
    requires
        related(x, y, v),
        no_open(a),
        no_open(b),
        alike(x.skip(last_open(x) + 1) + a, y.skip(last_open(y) + 1) + b),
    ensures
        related(x + a, y + b, Seq::empty()),
{
    let i = last_open(x);
    let j = last_open(y);
    lemma_open_after(x, a);
    lemma_open_after(y, b);
    lemma_last_open_is_last(x);
    lemma_last_open_is_last(y);
    assert((x + a).skip(i + 1) =~= x.skip(i + 1) + a);
    assert((y + b).skip(j + 1) + Seq::<TokenView>::empty() =~= y.skip(j + 1) + b);
    if i >= 0 {
        assert((x + a).take(i) =~= x.take(i));
        assert((y + b).take(j) =~= y.take(j));
        assert((x + a)[i] == x[i]);
        assert((y + b)[j] == y[j]);
    }
}

/// Tokens with more tokens after them are related to themselves where the
/// second parser has yet to add tokens that are like those.
pub proof fn lemma_related_ahead(x: Seq<TokenView>, a: Seq<TokenView>, v: Seq<TokenView>)
    requires
        no_open(a),
        alike(x.skip(last_open(x) + 1) + a, x.skip(last_open(x) + 1) + v),
    ensures
        related(x + a, x, v),
{
    let i = last_open(x);
    lemma_open_after(x, a);
    lemma_last_open_is_last(x);
    assert((x + a).skip(i + 1) =~= x.skip(i + 1) + a);
    if i >= 0 {
        assert((x + a).take(i) =~= x.take(i));
        assert((x + a)[i] == x[i]);
        lemma_related_same(x.take(i));
    }
}

/// Tokens that are related stay so when the same section is opened in both.
pub proof fn lemma_related_open(x: Seq<TokenView>, y: Seq<TokenView>, m: TokenView)
    requires
        related(x, y, Seq::empty()),
        m is IncompleteSection,
    ensures
        related(x.push(m), y.push(m), Seq::empty()),
{
    let x2 = x.push(m);
    let y2 = y.push(m);
    assert(last_open(x2) == x.len());
    assert(last_open(y2) == y.len());
    assert(x2.skip(x.len() as int + 1) =~= Seq::<TokenView>::empty());
    assert(y2.skip(y.len() as int + 1) + Seq::<TokenView>::empty() =~= Seq::<TokenView>::empty());
    assert(x2.take(x.len() as int) =~= x);
    assert(y2.take(y.len() as int) =~= y);
}

/// Tokens are related to themselves.
pub proof fn lemma_related_same(x: Seq<TokenView>)
    ensures
        related(x, x, Seq::empty()),
    decreases x.len(),
{
    let i = last_open(x);
    lemma_last_open_is_last(x);
    assert(x.skip(i + 1) + Seq::<TokenView>::empty() =~= x.skip(i + 1));
    if i >= 0 {
        lemma_related_same(x.take(i));
    }
}

/// Being alike goes both ways.
pub proof fn lemma_alike_sym(a: Seq<TokenView>, b: Seq<TokenView>)
    requires
        alike(a, b),
    ensures
        alike(b, a),
{
    assert forall|stack: Seq<Data>, env: Env, indent: Seq<char>, at: Cursor, depth: nat| #[trigger]
        render_tokens(b, stack, env, indent, at, depth) == render_tokens(
            a,
            stack,
            env,
            indent,
            at,
            depth,
        ) by {
        assert(render_tokens(a, stack, env, indent, at, depth) == render_tokens(
            b,
            stack,
            env,
            indent,
            at,
            depth,
        ));
    }
}

/// Holds of tokens that stand for the text `t`: its tokens, or one text
/// token, which may be empty.
pub open spec fn is_text_of(u: Seq<TokenView>, t: Seq<char>) -> bool {
    u == text_tokens(t) || u == seq![TokenView::Text(t)]
}

/// Tokens that are related, but for a text that the second parser has yet
/// to add, stay related when the first adds a text and the second adds
/// the two texts as one.
pub proof fn lemma_related_texts(
    x: Seq<TokenView>,
    y: Seq<TokenView>,
    pre: Seq<char>,
    t: Seq<char>,
    u: Seq<TokenView>,
    v: Seq<TokenView>,
)
    requires
        related(x, y, text_tokens(pre)),
        is_text_of(u, t),
        is_text_of(v, pre + t),
    ensures
        related(x + u, y + v, Seq::empty()),
{
    let sx = x.skip(last_open(x) + 1);
    let sy = y.skip(last_open(y) + 1);
    let tp = text_tokens(pre);
    let tt = text_tokens(t);
    let tpt = text_tokens(pre + t);
    lemma_alike_one_text(t);
    lemma_alike_one_text(pre + t);
    assert(alike(u, tt));
    assert(alike(v, tpt));
    lemma_alike_sym(v, tpt);
    lemma_alike_texts(pre, t);
    lemma_alike_concat(sx, sy + tp, u, tt);
    assert((sy + tp) + tt =~= sy + (tp + tt));
    lemma_alike_concat(sy, sy, tp + tt, tpt);
    lemma_alike_concat(sy, sy, tpt, v);
    lemma_alike_trans(sx + u, sy + (tp + tt), sy + tpt);
    lemma_alike_trans(sx + u, sy + tpt, sy + v);
    lemma_related_extend(x, y, tp, u, v);
}

/// The text that has become the last token since the last tag.
pub open spec fn pending(m: ParserModel) -> Seq<char> {
    if m.text_since_tag && m.tokens.len() > 0 && m.tokens.last() is Text {
        m.tokens.last()->Text_0
    } else {
        Seq::empty()
    }
}

/// The tokens without the text that has become a token since the last tag.
pub open spec fn base_tokens(m: ParserModel) -> Seq<TokenView> {
    if m.text_since_tag && m.tokens.len() > 0 {
        m.tokens.drop_last()
    } else {
        m.tokens
    }
}

/// Holds where text that has become a token since the last tag is the last
/// token, and not empty.
pub open spec fn text_kept(m: ParserModel) -> bool {
    m.text_since_tag ==> m.tokens.len() > 0 && m.tokens.last() is Text
        && m.tokens.last()->Text_0.len() > 0
}

/// Holds of two parsers that have the same rest of their templates before
/// them.
pub open spec fn same_rest(a: ParserModel, b: ParserModel) -> bool {
    &&& a.pos <= a.src.len()
    &&& b.pos <= b.src.len()
    &&& a.src.skip(a.pos as int) == b.src.skip(b.pos as int)
}

/// Holds of two parsers in the same state, with the same delimiters and
/// the same partials met, and as far into a delimiter where they are in
/// one.
pub open spec fn same_settings(a: ParserModel, b: ParserModel) -> bool {
    &&& a.state == b.state
    &&& a.otag == b.otag
    &&& a.ctag == b.ctag
    &&& (a.state is OTag || a.state is CTag) ==> a.tag_position == b.tag_position
    &&& a.curly == b.curly
    &&& a.partials == b.partials
}

/// Holds of two parsers, each in its own template, that have the same rest
/// of the template before them and are in the same state, but for this:
/// the text that the second has gathered since the last tag begins with
/// `pre`, which the first has not gathered; and where `pre` is not empty it
/// ends a line, and the first parser knows that its text began a line.
pub open spec fn paired(a: ParserModel, b: ParserModel, pre: Seq<char>) -> bool {
    &&& same_rest(a, b)
    &&& same_settings(a, b)
    &&& pre.len() > 0 ==> pre.last() == '\n' && a.fresh_line
    &&& pre.len() == 0 ==> a.fresh_line == b.fresh_line
    &&& if a.state is Text || a.state is OTag {
        &&& !a.text_since_tag
        &&& !b.text_since_tag
        &&& b.content == pre + a.content
        &&& related(a.tokens, b.tokens, text_tokens(pre))
    } else {
        &&& a.content == b.content
        &&& text_kept(a)
        &&& text_kept(b)
        &&& pending(b) == pre + pending(a)
        &&& related(base_tokens(a), base_tokens(b), text_tokens(pre))
    }
}

/// Where two templates have the same rest, they have it from further on too.
pub proof fn lemma_rest_moved(s1: Seq<char>, p1: int, s2: Seq<char>, p2: int, n: int)
    requires
        0 <= p1 <= s1.len(),
        0 <= p2 <= s2.len(),
        s1.skip(p1) == s2.skip(p2),
        0 <= n <= s1.len() - p1,
    ensures
        s1.len() - p1 == s2.len() - p2,
        s1.skip(p1 + n) == s2.skip(p2 + n),
        forall|k: int| 0 <= k < s1.len() - p1 ==> s1[p1 + k] == #[trigger] s2[p2 + k],
{
    assert(s1.skip(p1).len() == s1.len() - p1);
    assert(s2.skip(p2).len() == s2.len() - p2);
    assert forall|k: int| 0 <= k < s1.len() - p1 implies s1[p1 + k] == #[trigger] s2[p2 + k] by {
        assert(s1.skip(p1)[k] == s1[p1 + k]);
        assert(s2.skip(p2)[k] == s2[p2 + k]);
    }
    assert(s1.skip(p1 + n) =~= s1.skip(p1).skip(n));
    assert(s2.skip(p2 + n) =~= s2.skip(p2).skip(n));
}

/// Where two templates have the same rest, the whitespace at its beginning
/// is as long in both.
pub proof fn lemma_line_tail_shift(s1: Seq<char>, p1: nat, s2: Seq<char>, p2: nat)
    requires
        p1 <= s1.len(),
        p2 <= s2.len(),
        s1.skip(p1 as int) == s2.skip(p2 as int),
    ensures
        line_tail(s1, p1) - p1 == line_tail(s2, p2) - p2,
    decreases s1.len() - p1,
{
    lemma_rest_moved(s1, p1 as int, s2, p2 as int, 0);
    if p1 < s1.len() {
        let i1 = p1 as int;
        let i2 = p2 as int;
        assert(s1[i1 + 0] == s2[i2 + 0]);
        if p1 + 1 < s1.len() {
            assert(s1[i1 + 1] == s2[i2 + 1]);
        }
        if is_blank(s1[p1 as int]) && !(s1[p1 as int] == '\r' && p1 + 1 < s1.len() && s1[p1 as int
            + 1] == '\n') {
            lemma_rest_moved(s1, p1 as int, s2, p2 as int, 1);
            lemma_line_tail_shift(s1, p1 + 1, s2, p2 + 1);
        }
    }
}

/// What `trailing_blank` counts: the blanks that end the text, all of them.
pub proof fn lemma_trailing_blank_is(s: Seq<char>)
    ensures
        trailing_blank(s) <= s.len(),
        forall|j: int| s.len() - trailing_blank(s) <= j < s.len() ==> is_blank(#[trigger] s[j]),
        trailing_blank(s) < s.len() ==> !is_blank(s[s.len() - 1 - trailing_blank(s)]),
    decreases s.len(),
{
    if s.len() == 0 || !is_blank(s.last()) {
    } else {
        let t = s.drop_last();
        lemma_trailing_blank_is(t);
        assert forall|j: int| s.len() - trailing_blank(s) <= j < s.len() implies is_blank(
            #[trigger] s[j],
        ) by {
            if j < t.len() {
                assert(t[j] == s[j]);
            }
        }
        if trailing_blank(s) < s.len() {
            assert(t[t.len() - 1 - trailing_blank(t)] == s[s.len() - 1 - trailing_blank(s)]);
        }
    }
}

/// What two parsers must share for the tag that both have just closed to
/// stand alike on its line.
pub open spec fn lined_up(a: ParserModel, b: ParserModel, pre: Seq<char>) -> bool {
    &&& same_rest(a, b)
    &&& pre.len() > 0 ==> pre.last() == '\n' && a.fresh_line
    &&& pre.len() == 0 ==> a.fresh_line == b.fresh_line
    &&& text_kept(a)
    &&& text_kept(b)
    &&& pending(b) == pre + pending(a)
}

/// Two parsers that are lined up see the end of the line alike.
proof fn lemma_line_end_paired(a: ParserModel, b: ParserModel)
    requires
        same_rest(a, b),
    ensures
        a.at_line_end() == b.at_line_end(),
        line_tail(a.src, a.pos) - a.pos == line_tail(b.src, b.pos) - b.pos,
        a.skip_newline().pos - a.pos == b.skip_newline().pos - b.pos,
        a.pos <= a.skip_newline().pos <= a.src.len(),
        same_rest(a.skip_newline(), b.skip_newline()),
{
    lemma_line_tail_shift(a.src, a.pos, b.src, b.pos);
    lemma_line_tail(a.src, a.pos);
    lemma_line_tail(b.src, b.pos);
    let q1 = line_tail(a.src, a.pos);
    let q2 = line_tail(b.src, b.pos);
    lemma_rest_moved(a.src, a.pos as int, b.src, b.pos as int, q1 - a.pos);
    if q1 < a.src.len() {
        assert(a.src[a.pos + (q1 - a.pos)] == b.src[b.pos + (q1 - a.pos)]);
        if q1 + 1 < a.src.len() {
            assert(a.src[a.pos + (q1 + 1 - a.pos)] == b.src[b.pos + (q1 + 1 - a.pos)]);
        }
    }
    let n = a.skip_newline().pos - a.pos;
    assert(n == b.skip_newline().pos - b.pos);
    lemma_rest_moved(a.src, a.pos as int, b.src, b.pos as int, n);
}

/// The tag that two parsers have just closed stands alike on its line in
/// both, where they are lined up.
pub proof fn lemma_classify_paired(a: ParserModel, b: ParserModel, pre: Seq<char>)
    requires
        lined_up(a, b, pre),
    ensures
        match a.classify_token() {
            TokenClassView::Normal => b.classify_token() is Normal,
            TokenClassView::StandAlone => b.classify_token() is StandAlone,
            TokenClassView::WhiteSpace(s, cut) => a.text_since_tag && s == pending(a) && cut
                <= s.len() && b.text_since_tag && b.classify_token()
                == TokenClassView::WhiteSpace(pre + s, pre.len() + cut),
            TokenClassView::NewLineWhiteSpace(_, _) => false,
        },
{
    lemma_line_end_paired(a, b);
    let s1 = pending(a);
    let s2 = pending(b);
    lemma_trailing_blank_is(s1);
    let k = trailing_blank(s1);
    if a.at_line_end() {
        if s1.len() > 0 {
            assert forall|j: int| s2.len() - k <= j < s2.len() implies is_blank(#[trigger] s2[j]) by {
                assert(s2[j] == s1[j - pre.len()]);
            }
            if k < s1.len() {
                assert(s2[s2.len() - k - 1] == s1[s1.len() - k - 1]);
                crate::parser::lemma_trailing_blank(s2, k as int);
            } else if pre.len() > 0 {
                assert(s2[s2.len() - k - 1] == pre[pre.len() - 1]);
                crate::parser::lemma_trailing_blank(s2, k as int);
            } else {
                assert(s2 =~= s1);
            }
        } else if pre.len() > 0 {
            assert(s2 =~= pre);
            crate::parser::lemma_trailing_blank(s2, 0);
        } else {
            assert(s2 =~= Seq::<char>::empty());
        }
    }
}

/// Removing the whitespace around the tag that two parsers have just
/// closed leaves them with related tokens and nothing gathered apart.
pub proof fn lemma_eat_paired(a: ParserModel, b: ParserModel, pre: Seq<char>)
    requires
        lined_up(a, b, pre),
        related(base_tokens(a), base_tokens(b), text_tokens(pre)),
    ensures
        ({
            let (p, x) = a.eat_whitespace();
            let (q, y) = b.eat_whitespace();
            &&& x == y
            &&& p == ParserModel { pos: p.pos, tokens: p.tokens, fresh_line: x, text_since_tag: false, ..a }
            &&& q == ParserModel { pos: q.pos, tokens: q.tokens, fresh_line: x, text_since_tag: false, ..b }
            &&& a.pos <= p.pos
            &&& b.pos <= q.pos
            &&& same_rest(p, q)
            &&& related(p.tokens, q.tokens, Seq::empty())
        }),
{
    lemma_classify_paired(a, b, pre);
    lemma_line_end_paired(a, b);
    let x0 = base_tokens(a);
    let y0 = base_tokens(b);
    let s1 = pending(a);
    let s2 = pending(b);
    assert(a.tokens =~= x0 + text_tokens(s1));
    assert(b.tokens =~= y0 + text_tokens(s2));
    match a.classify_token() {
        TokenClassView::WhiteSpace(s, cut) => {
            let t = s.take(cut as int);
            assert((pre + s).take((pre.len() + cut) as int) =~= pre + t);
            let u = seq![TokenView::Text(t)];
            let v = seq![TokenView::Text(pre + t)];
            lemma_related_texts(x0, y0, pre, t, u, v);
            assert(a.tokens.drop_last().push(TokenView::Text(t)) =~= x0 + u);
            assert(b.tokens.drop_last().push(TokenView::Text(pre + t)) =~= y0 + v);
        },
        _ => {
            lemma_related_texts(x0, y0, pre, s1, text_tokens(s1), text_tokens(s2));
        },
    }
}

/// Tokens that are related stay so when each gets one more token, where
/// the two tokens are alike and open no section.
pub proof fn lemma_related_push(x: Seq<TokenView>, y: Seq<TokenView>, t: TokenView, u: TokenView)
    requires
        related(x, y, Seq::empty()),
        alike(seq![t], seq![u]),
        !(t is IncompleteSection),
        !(u is IncompleteSection),
    ensures
        related(x.push(t), y.push(u), Seq::empty()),
{
    let sx = x.skip(last_open(x) + 1);
    let sy = y.skip(last_open(y) + 1);
    assert(sy + Seq::<TokenView>::empty() =~= sy);
    lemma_alike_concat(sx, sy, seq![t], seq![u]);
    lemma_related_extend(x, y, Seq::empty(), seq![t], seq![u]);
    assert(x + seq![t] =~= x.push(t));
    assert(y + seq![u] =~= y.push(u));
}

/// A token list is like itself.
pub proof fn lemma_alike_same(a: Seq<TokenView>)
    ensures
        alike(a, a),
{
}

/// Holds of two parsers that have just closed the same tag, each in its
/// own template, before the tag is acted on; see [`paired`].
pub open spec fn tag_paired(a: ParserModel, b: ParserModel, pre: Seq<char>) -> bool {
    &&& lined_up(a, b, pre)
    &&& same_settings(a, b)
    &&& a.content == b.content
    &&& related(base_tokens(a), base_tokens(b), text_tokens(pre))
}

/// Holds of two parsers that have acted on the same tag: nothing is
/// gathered apart any more, and their tokens are related.
pub open spec fn settled_pair(p: ParserModel, q: ParserModel) -> bool {
    &&& same_rest(p, q)
    &&& same_settings(p, q)
    &&& p.content == q.content
    &&& p.fresh_line == q.fresh_line
    &&& !p.text_since_tag
    &&& !q.text_since_tag
    &&& related(p.tokens, q.tokens, Seq::empty())
}

/// Holds of what two parsers made of the same tag: the same error, or two
/// states that are settled, each in the template it was in.
pub open spec fn tag_results(
    ra: Result<ParserModel, Error>,
    rb: Result<ParserModel, Error>,
    a: ParserModel,
    b: ParserModel,
) -> bool {
    match (ra, rb) {
        (Ok(p), Ok(q)) => settled_pair(p, q) && p.src == a.src && q.src == b.src && p.state
            == a.state && p.pos >= a.pos && q.pos >= b.pos,
        (Err(e1), Err(e2)) => e1 == e2,
        _ => false,
    }
}

/// Removing the whitespace around the tag leaves two parsers settled.
proof fn lemma_eat_settled(a: ParserModel, b: ParserModel, pre: Seq<char>)
    requires
        tag_paired(a, b, pre),
    ensures
        a.eat_whitespace().1 == b.eat_whitespace().1,
        tag_results(
            Ok(a.eat_whitespace().0),
            Ok(b.eat_whitespace().0),
            a,
            b,
        ),
        a.eat_whitespace().0.otag == a.otag,
        a.eat_whitespace().0.ctag == a.ctag,
        a.eat_whitespace().0.partials == a.partials,
        a.eat_whitespace().0.content == a.content,
{
    lemma_eat_paired(a, b, pre);
}

/// The tokens of two parsers are related once the text that each holds as
/// its last token counts among them.
proof fn lemma_flush_related(a: ParserModel, b: ParserModel, pre: Seq<char>)
    requires
        tag_paired(a, b, pre),
    ensures
        related(a.tokens, b.tokens, Seq::empty()),
{
    let x0 = base_tokens(a);
    let y0 = base_tokens(b);
    let s1 = pending(a);
    let s2 = pending(b);
    assert(a.tokens =~= x0 + text_tokens(s1));
    assert(b.tokens =~= y0 + text_tokens(s2));
    lemma_related_texts(x0, y0, pre, s1, text_tokens(s1), text_tokens(s2));
}

/// An interpolation is added alike by two parsers.
proof fn lemma_value_paired(
    a: ParserModel,
    b: ParserModel,
    pre: Seq<char>,
    raw: Seq<char>,
    escaped: bool,
    tag: Seq<char>,
)
    requires
        tag_paired(a, b, pre),
    ensures
        tag_results(a.add_value_tag(raw, escaped, tag), b.add_value_tag(raw, escaped, tag), a, b),
{
    lemma_flush_related(a, b, pre);
    match a.add_value_tag(raw, escaped, tag) {
        Ok(p) => {
            let t = p.tokens.last();
            assert(p.tokens == a.tokens.push(t));
            lemma_related_push(a.tokens, b.tokens, t, t);
        },
        Err(_) => {},
    }
}

/// A section is opened alike by two parsers.
proof fn lemma_open_paired(
    a: ParserModel,
    b: ParserModel,
    pre: Seq<char>,
    rest: Seq<char>,
    inverted: bool,
    tag: Seq<char>,
)
    requires
        tag_paired(a, b, pre),
    ensures
        tag_results(a.open_section(rest, inverted, tag), b.open_section(rest, inverted, tag), a, b),
{
    lemma_eat_settled(a, b, pre);
    match a.open_section(rest, inverted, tag) {
        Ok(p) => {
            let m = p.tokens.last();
            lemma_related_open(a.eat_whitespace().0.tokens, b.eat_whitespace().0.tokens, m);
        },
        Err(_) => {},
    }
}

/// A section is closed alike by two parsers that are settled.
proof fn lemma_close_paired(p: ParserModel, q: ParserModel, name: Seq<Seq<char>>, tag: Seq<char>)
    requires
        settled_pair(p, q),
    ensures
        tag_results(p.close_section(name, tag), q.close_section(name, tag), p, q),
{
    let x = p.tokens;
    let y = q.tokens;
    let i = last_open(x);
    let j = last_open(y);
    lemma_last_open_is_last(x);
    lemma_last_open_is_last(y);
    if i >= 0 {
        let c1 = x.subrange(i + 1, x.len() as int);
        let c2 = y.subrange(j + 1, y.len() as int);
        assert(c1 =~= x.skip(i + 1));
        assert(c2 =~= y.skip(j + 1));
        assert(y.skip(j + 1) + Seq::<TokenView>::empty() =~= y.skip(j + 1));
        match x[i] {
            TokenView::IncompleteSection(section_name, inverted, osection, _) => {
                if section_name == name {
                    let s1 = section_of(name, inverted, c1, p.otag, osection, tag, p.ctag);
                    let s2 = section_of(name, inverted, c2, p.otag, osection, tag, p.ctag);
                    lemma_alike_section(name, inverted, c1, c2, p.otag, osection, tag, p.ctag);
                    lemma_related_push(x.take(i), y.take(j), s1, s2);
                }
            },
            _ => {},
        }
    }
}

/// The end of a section is read alike by two parsers.
proof fn lemma_end_paired(
    a: ParserModel,
    b: ParserModel,
    pre: Seq<char>,
    rest: Seq<char>,
    tag: Seq<char>,
)
    requires
        tag_paired(a, b, pre),
    ensures
        tag_results(a.end_section(rest, tag), b.end_section(rest, tag), a, b),
{
    lemma_eat_settled(a, b, pre);
    match crate::parser_model::check_content_spec(rest) {
        Ok(name) => {
            lemma_close_paired(
                a.eat_whitespace().0,
                b.eat_whitespace().0,
                crate::text::path_spec(name),
                tag,
            );
        },
        Err(_) => {},
    }
}

/// A partial is added alike by two parsers, with the same indent.
proof fn lemma_partial_paired(
    a: ParserModel,
    b: ParserModel,
    pre: Seq<char>,
    content: Seq<char>,
    tag: Seq<char>,
)
    requires
        tag_paired(a, b, pre),
    ensures
        tag_results(a.add_partial(content, tag), b.add_partial(content, tag), a, b),
{
    lemma_eat_settled(a, b, pre);
    lemma_classify_paired(a, b, pre);
    match a.classify_token() {
        TokenClassView::WhiteSpace(s, cut) => {
            assert((pre + s).skip((pre.len() + cut) as int) =~= s.skip(cut as int));
        },
        _ => {},
    }
    match a.add_partial(content, tag) {
        Ok(p) => {
            let t = p.tokens.last();
            lemma_related_push(
                a.eat_whitespace().0.tokens,
                b.eat_whitespace().0.tokens,
                t,
                t,
            );
        },
        Err(_) => {},
    }
}

/// Two parsers act alike on the tag that they have just closed.
proof fn lemma_dispatch_paired(
    a: ParserModel,
    b: ParserModel,
    pre: Seq<char>,
    content: Seq<char>,
    k: nat,
    tag: Seq<char>,
)
    requires
        tag_paired(a, b, pre),
    ensures
        tag_results(a.dispatch(content, k, tag), b.dispatch(content, k, tag), a, b),
{
    reveal(ParserModel::dispatch);
    let tail = content.skip(k as int);
    let rest = tail.skip(1);
    let sigil = tail[0];
    lemma_eat_settled(a, b, pre);
    if sigil == '!' {
    } else if sigil == '&' {
        lemma_value_paired(a, b, pre, rest, false, tag);
    } else if sigil == '{' {
        lemma_value_paired(a, b, pre, tail.subrange(1, tail.len() - 1), false, tag);
    } else if sigil == '#' {
        lemma_open_paired(a, b, pre, rest, false, tag);
    } else if sigil == '^' {
        lemma_open_paired(a, b, pre, rest, true, tag);
    } else if sigil == '/' {
        lemma_end_paired(a, b, pre, rest, tag);
    } else if sigil == '>' {
        lemma_partial_paired(a, b, pre, rest, tag);
    } else if sigil == '=' {
    } else {
        lemma_value_paired(a, b, pre, content, true, tag);
    }
}

/// Two parsers handle alike the tag that the current character closes.
proof fn lemma_add_tag_paired(a: ParserModel, b: ParserModel, pre: Seq<char>)
    requires
        tag_paired(a, b, pre),
        a.pos < a.src.len(),
    ensures
        tag_results(a.add_tag(), b.add_tag(), a, b),
{
    lemma_rest_moved(a.src, a.pos as int, b.src, b.pos as int, 1);
    let pa = ParserModel { content: Seq::empty(), ..a.bump() };
    let pb = ParserModel { content: Seq::empty(), ..b.bump() };
    assert(tag_paired(pa, pb, pre));
    let tag = a.otag + a.content + a.ctag;
    let k = crate::text::leading_ws(a.content);
    if k < a.content.len() {
        lemma_dispatch_paired(pa, pb, pre, a.content, k, tag);
    }
}

/// Holds of what two parsers made of their templates: the same error, or
/// the same partials and tokens that are alike.
pub open spec fn parsed_alike(
    ra: Result<(Seq<TokenView>, Seq<Seq<char>>), Error>,
    rb: Result<(Seq<TokenView>, Seq<Seq<char>>), Error>,
) -> bool {
    match (ra, rb) {
        (Ok((t1, n1)), Ok((t2, n2))) => n1 == n2 && alike(t1, t2),
        (Err(e1), Err(e2)) => e1 == e2,
        _ => false,
    }
}

/// What a parser makes of the rest of its template.
pub open spec fn parse_from(m: ParserModel) -> Result<(Seq<TokenView>, Seq<Seq<char>>), Error> {
    match m.run() {
        Err(e) => Err(e),
        Ok(p) => p.finish(),
    }
}

/// Two parsers that have acted on a tag are paired again, in text.
proof fn lemma_settled_is_paired(p: ParserModel, q: ParserModel)
    requires
        settled_pair(p, q),
    ensures
        paired(
            ParserModel { state: ParserState::Text, ..p },
            ParserModel { state: ParserState::Text, ..q },
            Seq::empty(),
        ),
{
    assert(Seq::<char>::empty() + p.content =~= p.content);
    assert(text_tokens(Seq::<char>::empty()) =~= Seq::<TokenView>::empty());
}

/// Two parsers that turn what they have gathered into a text token, and
/// enter a tag, stay paired.
proof fn lemma_enter_tag_paired(a: ParserModel, b: ParserModel, pre: Seq<char>)
    requires
        paired(a, b, pre),
        a.state is Text || a.state is OTag,
    ensures
        tag_paired(
            ParserModel { content: Seq::empty(), ..a.add_text() },
            ParserModel { content: Seq::empty(), ..b.add_text() },
            pre,
        ),
{
    let p = a.add_text();
    let q = b.add_text();
    if a.content.len() > 0 {
        assert(p.tokens.drop_last() =~= a.tokens);
    }
    if b.content.len() > 0 {
        assert(q.tokens.drop_last() =~= b.tokens);
    }
    if a.content.len() == 0 {
        assert(pre + a.content =~= pre);
    }
    assert(pending(q) =~= pre + pending(p));
}

/// Two parsers that were paired before a tag are paired in it.
proof fn lemma_in_tag_paired(a: ParserModel, b: ParserModel, pre: Seq<char>, curly: bool)
    requires
        paired(a, b, pre),
        a.state is Text || a.state is OTag,
        a.pos < a.src.len(),
    ensures
        paired(
            ParserModel { curly, state: ParserState::Tag, ..a.add_text() }.bump(),
            ParserModel { curly, state: ParserState::Tag, ..b.add_text() }.bump(),
            pre,
        ),
{
    lemma_rest_moved(a.src, a.pos as int, b.src, b.pos as int, 1);
    lemma_enter_tag_paired(a, b, pre);
    let pa = ParserModel { content: Seq::empty(), ..a.add_text() };
    let pb = ParserModel { content: Seq::empty(), ..b.add_text() };
    assert(pa == a.add_text()) by {
        if a.content.len() == 0 {
            assert(a.content =~= Seq::<char>::empty());
        }
    }
    assert(pb == b.add_text()) by {
        if b.content.len() == 0 {
            assert(b.content =~= Seq::<char>::empty());
        }
    }
    let p = ParserModel { curly, state: ParserState::Tag, ..a.add_text() }.bump();
    let q = ParserModel { curly, state: ParserState::Tag, ..b.add_text() }.bump();
    assert(pending(p) == pending(pa));
    assert(pending(q) == pending(pb));
    assert(base_tokens(p) == base_tokens(pa));
    assert(base_tokens(q) == base_tokens(pb));
    assert(text_kept(p) && text_kept(q));
    assert(same_rest(p, q));
}

/// One character on in text, two parsers that were paired are paired still.
proof fn lemma_step_text(a: ParserModel, b: ParserModel, pre: Seq<char>)
    requires
        paired(a, b, pre),
        a.pos < a.src.len(),
        a.state is Text,
    ensures
        a.step() is Ok,
        b.step() is Ok,
        paired(a.step()->Ok_0, b.step()->Ok_0, pre),
        a.step()->Ok_0.src == a.src,
        b.step()->Ok_0.src == b.src,
{
    lemma_rest_moved(a.src, a.pos as int, b.src, b.pos as int, 1);
    let i1 = a.pos as int;
    let i2 = b.pos as int;
    assert(a.src[i1 + 0] == b.src[i2 + 0]);
    let ch = a.src[a.pos as int];
    if ch == a.otag[0] {
        if a.otag.len() > 1 {
            let p = ParserModel { tag_position: 1, state: ParserState::OTag, ..a }.bump();
            let q = ParserModel { tag_position: 1, state: ParserState::OTag, ..b }.bump();
            assert(same_rest(p, q));
            assert(paired(p, q, pre));
        } else {
            lemma_in_tag_paired(a, b, pre, a.curly);
            assert(ParserModel { state: ParserState::Tag, ..a.add_text() } == ParserModel {
                curly: a.curly,
                state: ParserState::Tag,
                ..a.add_text()
            });
            assert(ParserModel { state: ParserState::Tag, ..b.add_text() } == ParserModel {
                curly: a.curly,
                state: ParserState::Tag,
                ..b.add_text()
            });
        }
    } else {
        assert((pre + a.content).push(ch) =~= pre + a.content.push(ch));
        let p = a.push_content(ch).bump();
        let q = b.push_content(ch).bump();
        assert(same_rest(p, q));
        assert(paired(p, q, pre));
    }
}

/// One character on in an opening delimiter, two parsers that were paired
/// are paired still.
proof fn lemma_step_otag(a: ParserModel, b: ParserModel, pre: Seq<char>)
    requires
        paired(a, b, pre),
        a.pos < a.src.len(),
        a.state is OTag,
    ensures
        a.step() is Ok,
        b.step() is Ok,
        paired(a.step()->Ok_0, b.step()->Ok_0, pre),
        a.step()->Ok_0.src == a.src,
        b.step()->Ok_0.src == b.src,
{
    lemma_rest_moved(a.src, a.pos as int, b.src, b.pos as int, 1);
    let i1 = a.pos as int;
    let i2 = b.pos as int;
    assert(a.src[i1 + 0] == b.src[i2 + 0]);
    let ch = a.src[a.pos as int];
    if ch == a.otag[a.tag_position as int] {
        if a.tag_position == a.otag.len() - 1 {
            lemma_in_tag_paired(a, b, pre, false);
        } else {
            let p = ParserModel { tag_position: a.tag_position + 1, ..a }.bump();
            let q = ParserModel { tag_position: b.tag_position + 1, ..b }.bump();
            assert(same_rest(p, q));
            assert(paired(p, q, pre));
        }
    } else {
        let part = a.otag.take(a.tag_position as int);
        assert(((pre + a.content) + part).push(ch) =~= pre + (a.content + part).push(ch));
        let p = ParserModel { state: ParserState::Text, ..a }.not_otag().push_content(ch).bump();
        let q = ParserModel { state: ParserState::Text, ..b }.not_otag().push_content(ch).bump();
        assert(same_rest(p, q));
        assert(paired(p, q, pre));
    }
}

/// What two parsers that were paired make of the tag that the current
/// character closes: the same error, or states that are paired, with no
/// text between them.
proof fn lemma_close_tag_paired(a: ParserModel, b: ParserModel, pre: Seq<char>)
    requires
        paired(a, b, pre),
        a.pos < a.src.len(),
        a.state is Tag || a.state is CTag,
    ensures
        match (a.add_tag(), b.add_tag()) {
            (Ok(p), Ok(q)) => paired(
                ParserModel { state: ParserState::Text, ..p },
                ParserModel { state: ParserState::Text, ..q },
                Seq::empty(),
            ) && p.src == a.src && q.src == b.src,
            (Err(e1), Err(e2)) => e1 == e2,
            _ => false,
        },
{
    assert(tag_paired(a, b, pre));
    lemma_add_tag_paired(a, b, pre);
    match (a.add_tag(), b.add_tag()) {
        (Ok(p), Ok(q)) => {
            lemma_settled_is_paired(p, q);
        },
        _ => {},
    }
}

/// One character on in a tag or in a closing delimiter, two parsers that
/// were paired are paired still, or have both read the same error.
proof fn lemma_step_tag(a: ParserModel, b: ParserModel, pre: Seq<char>)
    requires
        paired(a, b, pre),
        a.pos < a.src.len(),
        a.state is Tag || a.state is CTag,
    ensures
        match (a.step(), b.step()) {
            (Ok(p), Ok(q)) => (paired(p, q, pre) || paired(p, q, Seq::empty())) && p.src == a.src
                && q.src == b.src,
            (Err(e1), Err(e2)) => e1 == e2,
            _ => false,
        },
{
    lemma_rest_moved(a.src, a.pos as int, b.src, b.pos as int, 1);
    let i1 = a.pos as int;
    let i2 = b.pos as int;
    assert(a.src[i1 + 0] == b.src[i2 + 0]);
    let ch = a.src[a.pos as int];
    lemma_close_tag_paired(a, b, pre);
    if a.state is Tag {
        if a.content.len() == 0 && ch == '{' {
            let p = ParserModel { curly: true, ..a }.push_content(ch).bump();
            let q = ParserModel { curly: true, ..b }.push_content(ch).bump();
            assert(same_rest(p, q));
            assert(pending(p) == pending(a) && pending(q) == pending(b));
            assert(base_tokens(p) == base_tokens(a) && base_tokens(q) == base_tokens(b));
            assert(paired(p, q, pre));
        } else if a.curly && ch == '}' {
            let p = ParserModel { curly: false, ..a }.push_content(ch).bump();
            let q = ParserModel { curly: false, ..b }.push_content(ch).bump();
            assert(same_rest(p, q));
            assert(pending(p) == pending(a) && pending(q) == pending(b));
            assert(base_tokens(p) == base_tokens(a) && base_tokens(q) == base_tokens(b));
            assert(paired(p, q, pre));
        } else if ch == a.ctag[0] {
            if a.ctag.len() > 1 {
                let p = ParserModel { tag_position: 1, state: ParserState::CTag, ..a }.bump();
                let q = ParserModel { tag_position: 1, state: ParserState::CTag, ..b }.bump();
                assert(same_rest(p, q));
                assert(pending(p) == pending(a) && pending(q) == pending(b));
                assert(base_tokens(p) == base_tokens(a) && base_tokens(q) == base_tokens(b));
                assert(paired(p, q, pre));
            }
        } else {
            let p = a.push_content(ch).bump();
            let q = b.push_content(ch).bump();
            assert(same_rest(p, q));
            assert(pending(p) == pending(a) && pending(q) == pending(b));
            assert(base_tokens(p) == base_tokens(a) && base_tokens(q) == base_tokens(b));
            assert(paired(p, q, pre));
        }
    } else {
        if ch == a.ctag[a.tag_position as int] {
            if a.tag_position != a.ctag.len() - 1 {
                let p = ParserModel { tag_position: a.tag_position + 1, ..a }.bump();
                let q = ParserModel { tag_position: b.tag_position + 1, ..b }.bump();
                assert(same_rest(p, q));
                assert(pending(p) == pending(a) && pending(q) == pending(b));
                assert(base_tokens(p) == base_tokens(a) && base_tokens(q) == base_tokens(b));
                assert(paired(p, q, pre));
            }
        }
    }
}

/// One character on, two parsers that were paired are paired still: with
/// the same text between them, or with none once a tag is done.
pub proof fn lemma_step_paired(a: ParserModel, b: ParserModel, pre: Seq<char>)
    requires
        paired(a, b, pre),
        a.pos < a.src.len(),
    ensures
        match (a.step(), b.step()) {
            (Ok(p), Ok(q)) => (paired(p, q, pre) || paired(p, q, Seq::empty())) && p.src == a.src
                && q.src == b.src,
            (Err(e1), Err(e2)) => e1 == e2,
            _ => false,
        },
{
    match a.state {
        ParserState::Text => {
            lemma_step_text(a, b, pre);
        },
        ParserState::OTag => {
            lemma_step_otag(a, b, pre);
        },
        _ => {
            lemma_step_tag(a, b, pre);
        },
    }
}

/// Two parsers that are paired in text, or in an opening delimiter, flush
/// texts that leave their tokens related.
proof fn lemma_finish_text(a: ParserModel, b: ParserModel, pre: Seq<char>, c: Seq<char>)
    requires
        related(a.tokens, b.tokens, text_tokens(pre)),
    ensures
        related(
            ParserModel { content: c, ..a }.add_text().tokens,
            ParserModel { content: pre + c, ..b }.add_text().tokens,
            Seq::empty(),
        ),
{
    let d = pre + c;
    lemma_related_texts(a.tokens, b.tokens, pre, c, text_tokens(c), text_tokens(d));
    assert(ParserModel { content: c, ..a }.add_text().tokens =~= a.tokens + text_tokens(c));
    assert(ParserModel { content: d, ..b }.add_text().tokens =~= b.tokens + text_tokens(d));
}

/// Two parsers that are paired in a closing delimiter flush the same text,
/// which leaves their tokens related.
proof fn lemma_finish_ctag(a: ParserModel, b: ParserModel, pre: Seq<char>, c: Seq<char>)
    requires
        paired(a, b, pre),
        a.state is CTag,
    ensures
        related(
            ParserModel { content: c, ..a }.add_text().tokens,
            ParserModel { content: c, ..b }.add_text().tokens,
            Seq::empty(),
        ),
{
    assert(tag_paired(a, b, pre));
    lemma_flush_related(a, b, pre);
    let tc = text_tokens(c);
    let sx = a.tokens.skip(last_open(a.tokens) + 1);
    let sy = b.tokens.skip(last_open(b.tokens) + 1);
    assert(sy + Seq::<TokenView>::empty() =~= sy);
    lemma_alike_same(tc);
    lemma_alike_concat(sx, sy, tc, tc);
    lemma_related_extend(a.tokens, b.tokens, Seq::empty(), tc, tc);
    assert(ParserModel { content: c, ..a }.add_text().tokens =~= a.tokens + tc);
    assert(ParserModel { content: c, ..b }.add_text().tokens =~= b.tokens + tc);
}

/// Tokens that are related, with no section open, are alike; and a section
/// is open in both or in neither.
proof fn lemma_related_closed(x: Seq<TokenView>, y: Seq<TokenView>)
    requires
        related(x, y, Seq::empty()),
    ensures
        (last_open(x) >= 0) == (last_open(y) >= 0),
        last_open(x) < 0 ==> alike(x, y),
{
    lemma_last_open_is_last(x);
    lemma_last_open_is_last(y);
    if last_open(x) < 0 {
        assert(x.skip(0) =~= x);
        assert(y.skip(0) + Seq::<TokenView>::empty() =~= y);
    }
}

/// At the end of their templates, two parsers that are paired have read
/// the same error, or tokens that are alike.
pub proof fn lemma_finish_paired(a: ParserModel, b: ParserModel, pre: Seq<char>)
    requires
        paired(a, b, pre),
    ensures
        parsed_alike(a.finish(), b.finish()),
{
    match a.state {
        ParserState::Tag => {},
        ParserState::Text => {
            lemma_finish_text(a, b, pre, a.content);
            assert(ParserModel { content: a.content, ..a } == a);
            assert(ParserModel { content: pre + a.content, ..b } == b);
            lemma_related_closed(a.add_text().tokens, b.add_text().tokens);
        },
        ParserState::OTag => {
            let c = a.not_otag().content;
            lemma_finish_text(a, b, pre, c);
            assert(b.not_otag().content =~= pre + c);
            assert(ParserModel { content: c, ..a } == a.not_otag());
            assert(ParserModel { content: pre + c, ..b } == b.not_otag());
            lemma_related_closed(a.not_otag().add_text().tokens, b.not_otag().add_text().tokens);
        },
        ParserState::CTag => {
            let c = a.not_ctag().content;
            lemma_finish_ctag(a, b, pre, c);
            assert(ParserModel { content: c, ..a } == a.not_ctag());
            assert(ParserModel { content: c, ..b } == b.not_ctag());
            lemma_related_closed(a.not_ctag().add_text().tokens, b.not_ctag().add_text().tokens);
        },
    }
}

/// Two parsers that are paired make of the rest of their templates the
/// same error, or the same partials and tokens that are alike.
pub proof fn lemma_run_paired(a: ParserModel, b: ParserModel, pre: Seq<char>)
    requires
        paired(a, b, pre),
    ensures
        parsed_alike(parse_from(a), parse_from(b)),
    decreases a.src.len() - a.pos,
{
    lemma_rest_moved(a.src, a.pos as int, b.src, b.pos as int, 0);
    if a.pos >= a.src.len() {
        lemma_finish_paired(a, b, pre);
    } else {
        lemma_step_paired(a, b, pre);
        match (a.step(), b.step()) {
            (Ok(p), Ok(q)) => {
                let rest = if paired(p, q, pre) {
                    pre
                } else {
                    Seq::empty()
                };
                lemma_rest_moved(p.src, p.pos as int, q.src, q.pos as int, 0);
                if p.src == a.src && a.pos < p.pos <= p.src.len() {
                    lemma_run_paired(p, q, rest);
                } else {
                    lemma_finish_paired(p, q, rest);
                }
            },
            _ => {},
        }
    }
}

/// A comment that stands alone on its line leaves no trace, whatever the
/// template holds after it: a parser in text at the start of a line, before
/// the whitespace `ws`, the comment, the whitespace `pad` and the line's
/// end `nl`, and a parser in the same state in a template that goes on
/// without that line, read the same error, or the same partials and tokens
/// that render to the same text against any data.
pub proof fn law_standalone_comment_anywhere(
    with: ParserModel,
    without: ParserModel,
    ws: Seq<char>,
    body: Seq<char>,
    pad: Seq<char>,
    nl: Seq<char>,
)
    requires
        with.wf(),
        with.state is Text,
        with.otag == default_otag(),
        with.ctag == default_ctag(),
        !with.text_since_tag,
        !with.curly,
        with.content.len() == 0 ==> with.fresh_line,
        with.content.len() > 0 ==> with.content.last() == '\n',
        with.pos + comment_line(ws, body, pad, nl).len() <= with.src.len(),
        with.src.subrange(
            with.pos as int,
            (with.pos + comment_line(ws, body, pad, nl).len()) as int,
        ) == comment_line(ws, body, pad, nl),
        forall|j: int| 0 <= j < ws.len() ==> is_blank(#[trigger] ws[j]),
        forall|j: int| 0 <= j < body.len() ==> #[trigger] body[j] != '}',
        is_padding(pad),
        nl == seq!['\n'] || nl == seq!['\r', '\n'] || (nl.len() == 0 && with.pos + comment_line(
            ws,
            body,
            pad,
            nl,
        ).len() == with.src.len()),
        without == (ParserModel { src: without.src, pos: without.pos, ..with }),
        without.pos <= without.src.len(),
        without.src.skip(without.pos as int) == with.src.skip(
            (with.pos + comment_line(ws, body, pad, nl).len()) as int,
        ),
    ensures
        parsed_alike(parse_from(with), parse_from(without)),
{
    law_standalone_comment_line(with, ws, body, pad, nl);
    let pre = with.content;
    let kept = trimmed_tokens(pre, ws);
    let after = ParserModel {
        pos: with.pos + comment_line(ws, body, pad, nl).len(),
        content: Seq::empty(),
        tag_position: 1,
        curly: false,
        tokens: with.tokens + kept,
        fresh_line: true,
        text_since_tag: false,
        ..with
    };
    assert(with.run() == after.run());
    let x = with.tokens;
    let sx = x.skip(last_open(x) + 1);
    lemma_alike_one_text(pre);
    lemma_alike_same(sx);
    if pre.len() == 0 && ws.len() > 0 {
        lemma_alike_concat(sx, sx, kept, text_tokens(pre));
    } else {
        assert(kept =~= text_tokens(pre));
    }
    lemma_related_ahead(x, kept, text_tokens(pre));
    assert(pre + Seq::<char>::empty() =~= pre);
    assert(paired(after, without, pre));
    lemma_run_paired(after, without, pre);
}

/// A comment that stands alone on its line leaves no trace, whatever
/// follows it: a template that begins with text, goes on with the line of
/// the comment and then with anything at all, and the template without that
/// line, compile to the same error, or to the same partials and to tokens
/// that render to the same text against any data.
pub proof fn law_standalone_comment_before_anything(
    pre: Seq<char>,
    ws: Seq<char>,
    body: Seq<char>,
    pad: Seq<char>,
    nl: Seq<char>,
    rest: Seq<char>,
)
    requires
        forall|j: int| 0 <= j < pre.len() ==> #[trigger] pre[j] != '{',
        pre.len() == 0 || pre.last() == '\n',
        forall|j: int| 0 <= j < ws.len() ==> is_blank(#[trigger] ws[j]),
        forall|j: int| 0 <= j < body.len() ==> #[trigger] body[j] != '}',
        is_padding(pad),
        nl == seq!['\n'] || nl == seq!['\r', '\n'] || (nl.len() == 0 && rest.len() == 0),
    ensures
        parsed_alike(
            parse_spec(pre + comment_line(ws, body, pad, nl) + rest, default_otag(), default_ctag()),
            parse_spec(pre + rest, default_otag(), default_ctag()),
        ),
{
    let line = comment_line(ws, body, pad, nl);
    let src1 = pre + line + rest;
    let src2 = pre + rest;
    let o = pre.len();
    let a0 = ParserModel::initial(src1, default_otag(), default_ctag());
    let b0 = ParserModel::initial(src2, default_otag(), default_ctag());
    let a1 = ParserModel { pos: o, content: pre, ..a0 };
    let b1 = ParserModel { pos: o, content: pre, ..b0 };
    assert(a0.run() == a1.run()) by {
        lemma_run_plain(a0, o);
        assert(a0.content + src1.subrange(0, o as int) =~= pre);
    }
    assert(b0.run() == b1.run()) by {
        lemma_run_plain(b0, o);
        assert(b0.content + src2.subrange(0, o as int) =~= pre);
    }
    assert(src1.subrange(o as int, (o + line.len()) as int) =~= line);
    assert(src2.skip(o as int) =~= rest);
    assert(src1.skip((o + line.len()) as int) =~= rest);
    law_standalone_comment_anywhere(a1, b1, ws, body, pad, nl);
}

/// The state of the parser where it first stands at `n` or beyond, or the
/// error that it read before.
pub open spec fn run_until(m: ParserModel, n: nat) -> Result<ParserModel, Error>
    decreases m.src.len() - m.pos,
{
    if m.pos >= n || m.pos >= m.src.len() {
        Ok(m)
    } else {
        match m.step() {
            Err(e) => Err(e),
            Ok(next) => if next.src == m.src && m.pos < next.pos <= next.src.len() {
                run_until(next, n)
            } else {
                Ok(next)
            },
        }
    }
}

/// Reading a template is reading it up to `n` and going on from there.
pub proof fn lemma_run_split(m: ParserModel, n: nat)
    ensures
        match run_until(m, n) {
            Err(e) => m.run() == Err::<ParserModel, Error>(e),
            Ok(p) => p.src == m.src && n <= p.pos <= p.src.len() ==> m.run() == p.run(),
        },
    decreases m.src.len() - m.pos,
{
    if m.pos >= n || m.pos >= m.src.len() {
    } else {
        match m.step() {
            Err(e) => {},
            Ok(next) => {
                if next.src == m.src && m.pos < next.pos <= next.src.len() {
                    lemma_run_split(next, n);
                }
            },
        }
    }
}

/// Holds where the default delimiters are in force wherever the parser
/// stands before `n`, and at `n`: no tag up to there has changed them.
pub open spec fn default_kept(m: ParserModel, n: nat) -> bool
    decreases m.src.len() - m.pos,
{
    &&& m.otag == default_otag()
    &&& m.ctag == default_ctag()
    &&& m.pos < n && m.pos < m.src.len() ==> match m.step() {
        Err(_) => true,
        Ok(next) => next.src == m.src && m.pos < next.pos <= next.src.len() ==> default_kept(
            next,
            n,
        ),
    }
}

/// Holds of two parsers in the same state, each in its own template, where
/// the templates begin alike: with `n` characters, the last of them a line
/// feed. The parsers have not passed these characters, and the state is one
/// that reading such characters with the default delimiters leads to.
pub open spec fn twin(a: ParserModel, b: ParserModel, n: nat) -> bool {
    &&& b == ParserModel { src: b.src, ..a }
    &&& n <= a.src.len()
    &&& n <= b.src.len()
    &&& a.src.take(n as int) == b.src.take(n as int)
    &&& n > 0 ==> a.src[n - 1] == '\n'
    &&& a.pos <= n
    &&& !(a.state is Tag) ==> !a.curly
    &&& (a.state is Text || a.state is OTag) ==> !a.text_since_tag
    &&& (a.state is OTag || a.state is CTag) ==> a.tag_position == 1
    &&& a.state is Text && a.content.len() > 0 ==> a.pos > 0 && a.content.last() == a.src[a.pos
        - 1]
    &&& a.state is Text && a.content.len() == 0 && !a.fresh_line ==> a.pos > 0 && a.src[a.pos
        - 1] == '}'
}

/// Two templates that begin alike hold the same characters there.
proof fn lemma_same_start(s1: Seq<char>, s2: Seq<char>, n: nat, k: int)
    requires
        n <= s1.len(),
        n <= s2.len(),
        s1.take(n as int) == s2.take(n as int),
        0 <= k < n,
    ensures
        s1[k] == s2[k],
{
    assert(s1.take(n as int)[k] == s1[k]);
    assert(s2.take(n as int)[k] == s2[k]);
}

/// Before a line feed that two templates share, the whitespace that
/// begins at `p` ends at the same place in both, and before that line feed
/// or at it.
proof fn lemma_line_tail_start(s1: Seq<char>, s2: Seq<char>, n: nat, p: nat)
    requires
        n <= s1.len(),
        n <= s2.len(),
        s1.take(n as int) == s2.take(n as int),
        p < n,
        s1[n - 1] == '\n',
    ensures
        line_tail(s1, p) == line_tail(s2, p),
        p <= line_tail(s1, p) < n,
    decreases n - p,
{
    lemma_same_start(s1, s2, n, p as int);
    if p + 1 < n {
        lemma_same_start(s1, s2, n, p as int + 1);
        if is_blank(s1[p as int]) && !(s1[p as int] == '\r' && s1[p as int + 1] == '\n') {
            lemma_line_tail_start(s1, s2, n, p + 1);
        }
    }
}

/// Before a line feed that their templates share, two parsers in the same
/// state find the tag that they have just closed alike on its line, and remove
/// the whitespace around it alike; neither passes the line feed.
proof fn lemma_eat_twin(a: ParserModel, b: ParserModel, n: nat)
    requires
        b == (ParserModel { src: b.src, ..a }),
        n <= a.src.len(),
        n <= b.src.len(),
        a.src.take(n as int) == b.src.take(n as int),
        a.pos < n,
        a.src[n - 1] == '\n',
    ensures
        a.classify_token() == b.classify_token(),
        ({
            let (p, x) = a.eat_whitespace();
            let (q, y) = b.eat_whitespace();
            &&& x == y
            &&& q == ParserModel { src: b.src, ..p }
            &&& p == ParserModel { pos: p.pos, tokens: p.tokens, fresh_line: x, text_since_tag: false, ..a }
            &&& a.pos <= p.pos <= n
            &&& !x ==> p.pos == a.pos
        }),
{
    lemma_line_tail_start(a.src, b.src, n, a.pos);
    let t = line_tail(a.src, a.pos);
    lemma_same_start(a.src, b.src, n, t as int);
    if t + 1 < n {
        lemma_same_start(a.src, b.src, n, t as int + 1);
    }
}

/// Holds of what two parsers in the same state made of the same tag, before
/// a line feed that their templates share: the same error, or the same
/// state again, not behind the line feed.
pub open spec fn twin_results(
    ra: Result<ParserModel, Error>,
    rb: Result<ParserModel, Error>,
    a: ParserModel,
    b: ParserModel,
    n: nat,
) -> bool {
    match (ra, rb) {
        (Ok(p), Ok(q)) => {
            &&& q == ParserModel { src: b.src, ..p }
            &&& p.src == a.src
            &&& a.pos <= p.pos <= n
            &&& !p.text_since_tag
            &&& !p.fresh_line ==> p.pos == a.pos
            &&& p.content == a.content
            &&& p.state == a.state
            &&& p.curly == a.curly
            &&& p.tag_position == a.tag_position
        },
        (Err(e1), Err(e2)) => e1 == e2,
        _ => false,
    }
}

/// Holds of two parsers in the same state that have just closed a tag
/// before a line feed that their templates share.
pub open spec fn twin_tag(a: ParserModel, b: ParserModel, n: nat) -> bool {
    &&& b == ParserModel { src: b.src, ..a }
    &&& n <= a.src.len()
    &&& n <= b.src.len()
    &&& a.src.take(n as int) == b.src.take(n as int)
    &&& a.pos < n
    &&& a.src[n - 1] == '\n'
}

/// The whitespace around the tag is removed alike.
proof fn lemma_twin_eat(a: ParserModel, b: ParserModel, n: nat)
    requires
        twin_tag(a, b, n),
    ensures
        twin_results(Ok(a.eat_whitespace().0), Ok(b.eat_whitespace().0), a, b, n),
        a.eat_whitespace().1 == b.eat_whitespace().1,
        a.eat_whitespace().0.otag == a.otag,
        a.eat_whitespace().0.ctag == a.ctag,
{
    lemma_eat_twin(a, b, n);
}

/// An interpolation is added alike.
proof fn lemma_twin_value(
    a: ParserModel,
    b: ParserModel,
    n: nat,
    raw: Seq<char>,
    escaped: bool,
    tag: Seq<char>,
)
    requires
        twin_tag(a, b, n),
    ensures
        twin_results(a.add_value_tag(raw, escaped, tag), b.add_value_tag(raw, escaped, tag), a, b, n),
{
}

/// A section is opened alike.
proof fn lemma_twin_open(
    a: ParserModel,
    b: ParserModel,
    n: nat,
    rest: Seq<char>,
    inverted: bool,
    tag: Seq<char>,
)
    requires
        twin_tag(a, b, n),
    ensures
        twin_results(a.open_section(rest, inverted, tag), b.open_section(rest, inverted, tag), a, b, n),
{
    lemma_twin_eat(a, b, n);
}

/// The end of a section is read alike.
proof fn lemma_twin_end(a: ParserModel, b: ParserModel, n: nat, rest: Seq<char>, tag: Seq<char>)
    requires
        twin_tag(a, b, n),
    ensures
        twin_results(a.end_section(rest, tag), b.end_section(rest, tag), a, b, n),
{
    lemma_twin_eat(a, b, n);
}

/// A partial is added alike.
proof fn lemma_twin_partial(
    a: ParserModel,
    b: ParserModel,
    n: nat,
    content: Seq<char>,
    tag: Seq<char>,
)
    requires
        twin_tag(a, b, n),
    ensures
        twin_results(a.add_partial(content, tag), b.add_partial(content, tag), a, b, n),
{
    lemma_twin_eat(a, b, n);
}

/// The delimiters are changed alike.
proof fn lemma_twin_delimiters(a: ParserModel, b: ParserModel, n: nat, tail: Seq<char>)
    requires
        twin_tag(a, b, n),
    ensures
        twin_results(
            a.eat_whitespace().0.change_delimiters(tail),
            b.eat_whitespace().0.change_delimiters(tail),
            a,
            b,
            n,
        ),
{
    lemma_twin_eat(a, b, n);
}

/// Before a line feed that their templates share, two parsers in the same
/// state act alike on the tag that they have just closed.
proof fn lemma_dispatch_twin(
    a: ParserModel,
    b: ParserModel,
    n: nat,
    content: Seq<char>,
    k: nat,
    tag: Seq<char>,
)
    requires
        twin_tag(a, b, n),
    ensures
        twin_results(a.dispatch(content, k, tag), b.dispatch(content, k, tag), a, b, n),
{
    reveal(ParserModel::dispatch);
    let tail = content.skip(k as int);
    let rest = tail.skip(1);
    let sigil = tail[0];
    if sigil == '!' {
        lemma_twin_eat(a, b, n);
    } else if sigil == '&' {
        lemma_twin_value(a, b, n, rest, false, tag);
    } else if sigil == '{' {
        lemma_twin_value(a, b, n, tail.subrange(1, tail.len() - 1), false, tag);
    } else if sigil == '#' {
        lemma_twin_open(a, b, n, rest, false, tag);
    } else if sigil == '^' {
        lemma_twin_open(a, b, n, rest, true, tag);
    } else if sigil == '/' {
        lemma_twin_end(a, b, n, rest, tag);
    } else if sigil == '>' {
        lemma_twin_partial(a, b, n, rest, tag);
    } else if sigil == '=' {
        lemma_twin_delimiters(a, b, n, tail);
    } else {
        lemma_twin_value(a, b, n, content, true, tag);
    }
}

/// One character on, before a line feed that their templates share, two
/// parsers in the same state are in the same state still.
proof fn lemma_step_twin(a: ParserModel, b: ParserModel, n: nat)
    requires
        twin(a, b, n),
        a.otag == default_otag(),
        a.ctag == default_ctag(),
        a.pos < n,
    ensures
        match (a.step(), b.step()) {
            (Ok(p), Ok(q)) => twin(p, q, n) && p.src == a.src && q.src == b.src && a.pos < p.pos,
            (Err(e1), Err(e2)) => e1 == e2,
            _ => false,
        },
{
    lemma_same_start(a.src, b.src, n, a.pos as int);
    lemma_default_delimiters();
    let ch = a.src[a.pos as int];
    assert(default_otag().len() == 2 && default_ctag().len() == 2);
    assert(default_otag()[0] == '{' && default_otag()[1] == '{');
    assert(default_ctag()[0] == '}' && default_ctag()[1] == '}');
    match a.state {
        ParserState::Text => {
            if ch == a.otag[0] {
            } else {
                let p = a.push_content(ch).bump();
                assert(p.content.last() == ch);
            }
        },
        ParserState::OTag => {
            if ch == a.otag[a.tag_position as int] {
                let p = ParserModel {
                    curly: false,
                    state: ParserState::Tag,
                    ..a.add_text()
                }.bump();
                assert(p.content =~= Seq::<char>::empty());
            } else {
                let p = ParserModel { state: ParserState::Text, ..a }.not_otag().push_content(
                    ch,
                ).bump();
                assert(p.content.last() == ch);
            }
        },
        ParserState::Tag => {
            if a.content.len() == 0 && ch == '{' {
            } else if a.curly && ch == '}' {
            } else if ch == a.ctag[0] {
            } else {
            }
        },
        ParserState::CTag => {
            if ch == a.ctag[a.tag_position as int] {
                assert(a.pos + 1 < n);
                let content = a.content;
                let tag = a.otag + a.content + a.ctag;
                let pa = ParserModel { content: Seq::empty(), ..a.bump() };
                let pb = ParserModel { content: Seq::empty(), ..b.bump() };
                let k = crate::text::leading_ws(content);
                if k < content.len() {
                    lemma_dispatch_twin(pa, pb, n, content, k, tag);
                    match a.add_tag() {
                        Ok(p) => {
                            let r = ParserModel { state: ParserState::Text, ..p };
                            assert(r.content.len() == 0);
                            if !r.fresh_line {
                                assert(r.pos == a.pos + 1);
                            }
                        },
                        Err(_) => {},
                    }
                }
            }
        },
    }
}

/// Up to a line feed that their templates share, two parsers in the same
/// state read the same error, or come to stand behind the line feed in the
/// same state.
proof fn lemma_run_until_twin(a: ParserModel, b: ParserModel, n: nat)
    requires
        twin(a, b, n),
        default_kept(a, n),
    ensures
        match (run_until(a, n), run_until(b, n)) {
            (Ok(p), Ok(q)) => twin(p, q, n) && p.pos == n && p.src == a.src && q.src == b.src
                && p.otag == default_otag() && p.ctag == default_ctag(),
            (Err(e1), Err(e2)) => e1 == e2,
            _ => false,
        },
    decreases a.src.len() - a.pos,
{
    if a.pos >= n {
    } else {
        lemma_step_twin(a, b, n);
        match (a.step(), b.step()) {
            (Ok(p), Ok(q)) => {
                lemma_run_until_twin(p, q, n);
            },
            _ => {},
        }
    }
}

/// A comment that stands alone on its line leaves no trace, whatever
/// stands before and after it in the template. The template `before`
/// changes no delimiter; it is empty or ends with a line feed, and it does
/// not end inside a tag. Then the template
/// that goes on with the whitespace `ws`, the comment, the whitespace `pad`,
/// the line's end `nl` and then `after`, and the template that goes on with
/// `after` at once, compile to the same error, or to the same partials and to
/// tokens that render to the same text against any data.
pub proof fn law_standalone_comment_in_template(
    before: Seq<char>,
    ws: Seq<char>,
    body: Seq<char>,
    pad: Seq<char>,
    nl: Seq<char>,
    after: Seq<char>,
)
    requires
        before.len() == 0 || before.last() == '\n',
        default_kept(
            ParserModel::initial(
                before + comment_line(ws, body, pad, nl) + after,
                default_otag(),
                default_ctag(),
            ),
            before.len(),
        ),
        run_until(
            ParserModel::initial(
                before + comment_line(ws, body, pad, nl) + after,
                default_otag(),
                default_ctag(),
            ),
            before.len(),
        ) matches Ok(m) ==> m.state is Text,
        forall|j: int| 0 <= j < ws.len() ==> is_blank(#[trigger] ws[j]),
        forall|j: int| 0 <= j < body.len() ==> #[trigger] body[j] != '}',
        is_padding(pad),
        nl == seq!['\n'] || nl == seq!['\r', '\n'] || (nl.len() == 0 && after.len() == 0),
    ensures
        parsed_alike(
            parse_spec(
                before + comment_line(ws, body, pad, nl) + after,
                default_otag(),
                default_ctag(),
            ),
            parse_spec(before + after, default_otag(), default_ctag()),
        ),
{
    let line = comment_line(ws, body, pad, nl);
    let src1 = before + line + after;
    let src2 = before + after;
    let n = before.len();
    let a0 = ParserModel::initial(src1, default_otag(), default_ctag());
    let b0 = ParserModel::initial(src2, default_otag(), default_ctag());
    assert(src1.take(n as int) =~= before);
    assert(src2.take(n as int) =~= before);
    if n > 0 {
        assert(src1[n - 1] == before[n - 1]);
    }
    assert(twin(a0, b0, n));
    lemma_run_until_twin(a0, b0, n);
    lemma_run_split(a0, n);
    lemma_run_split(b0, n);
    match (run_until(a0, n), run_until(b0, n)) {
        (Ok(m), Ok(m2)) => {
            assert(a0.run() == m.run());
            assert(b0.run() == m2.run());
            assert(src1.subrange(n as int, (n + line.len()) as int) =~= line);
            assert(src2.skip(n as int) =~= after);
            assert(src1.skip((n + line.len()) as int) =~= after);
            if m.content.len() == 0 && !m.fresh_line {
                assert(src1[n - 1] == '}');
            }
            law_standalone_comment_anywhere(m, m2, ws, body, pad, nl);
        },
        _ => {},
    }
}

/// A comment that stands alone on its line changes nothing in what is
/// rendered: under the conditions of [`law_standalone_comment_in_template`],
/// the template with the comment's line and the template without it compile
/// to the same error, or to templates with the same partials that render to
/// the same text against any data, whatever the lambdas answer.
pub proof fn law_standalone_comment_renders(
    before: Seq<char>,
    ws: Seq<char>,
    body: Seq<char>,
    pad: Seq<char>,
    nl: Seq<char>,
    after: Seq<char>,
    data: Data,
    calls: Seq<Call>,
)
    requires
        before.len() == 0 || before.last() == '\n',
        default_kept(
            ParserModel::initial(
                before + comment_line(ws, body, pad, nl) + after,
                default_otag(),
                default_ctag(),
            ),
            before.len(),
        ),
        run_until(
            ParserModel::initial(
                before + comment_line(ws, body, pad, nl) + after,
                default_otag(),
                default_ctag(),
            ),
            before.len(),
        ) matches Ok(m) ==> m.state is Text,
        forall|j: int| 0 <= j < ws.len() ==> is_blank(#[trigger] ws[j]),
        forall|j: int| 0 <= j < body.len() ==> #[trigger] body[j] != '}',
        is_padding(pad),
        nl == seq!['\n'] || nl == seq!['\r', '\n'] || (nl.len() == 0 && after.len() == 0),
    ensures
        match (
            compile_spec(before + comment_line(ws, body, pad, nl) + after),
            compile_spec(before + after),
        ) {
            (Ok(with), Ok(without)) => with.partials == without.partials && render_template(
                with,
                data,
                calls,
            ) == render_template(without, data, calls),
            (Err(e1), Err(e2)) => e1 == e2,
            _ => false,
        },
{
    law_standalone_comment_in_template(before, ws, body, pad, nl, after);
    match (
        compile_spec(before + comment_line(ws, body, pad, nl) + after),
        compile_spec(before + after),
    ) {
        (Ok(with), Ok(without)) => {
            assert(render_tokens(
                with.tokens,
                seq![data],
                Env { partials: with.partials, calls },
                Seq::empty(),
                Cursor::start(),
                MAX_DEPTH as nat,
            ) == render_tokens(
                without.tokens,
                seq![data],
                Env { partials: with.partials, calls },
                Seq::empty(),
                Cursor::start(),
                MAX_DEPTH as nat,
            ));
        },
        _ => {},
    }
}

} // verus!
