//! Laws of parsing, proved of the parser's state machine.

use vstd::prelude::*;
use crate::error::Error;
use crate::parser_model::{
    default_ctag,
    default_otag,
    is_blank,
    last_open,
    lemma_line_tail,
    line_tail,
    parse_spec,
    ParserModel,
    ParserState,
};
use crate::token::{token_complete, tokens_complete, TokenClassView, TokenView};

verus! {

/// Holds of a token that is an open-section marker, or holds none at any depth.
pub open spec fn settled(t: TokenView) -> bool {
    t is IncompleteSection || token_complete(t)
}

/// Holds when the open-section markers of `ts` are among `ts` itself, not
/// inside its sections.
pub open spec fn all_settled(ts: Seq<TokenView>) -> bool {
    forall|i: int| 0 <= i < ts.len() ==> settled(#[trigger] ts[i])
}

/// The last open-section marker stands where `last_open` says, and no
/// marker follows it.
pub proof fn lemma_last_open_is_last(ts: Seq<TokenView>)
    ensures
        -1 <= last_open(ts) < ts.len(),
        last_open(ts) >= 0 ==> ts[last_open(ts)] is IncompleteSection,
        forall|j: int| last_open(ts) < j < ts.len() ==> !(#[trigger] ts[j] is IncompleteSection),
    decreases ts.len(),
{
    if ts.len() > 0 && !(ts.last() is IncompleteSection) {
        let shorter = ts.drop_last();
        lemma_last_open_is_last(shorter);
        assert forall|j: int| last_open(ts) < j < ts.len() implies !(#[trigger] ts[j]
            is IncompleteSection) by {
            if j < shorter.len() {
                assert(shorter[j] == ts[j]);
            }
        }
        if last_open(ts) >= 0 {
            assert(shorter[last_open(ts)] == ts[last_open(ts)]);
        }
    }
}

proof fn lemma_push_settled(ts: Seq<TokenView>, t: TokenView)
    requires
        all_settled(ts),
        settled(t),
    ensures
        all_settled(ts.push(t)),
{
    assert forall|i: int| 0 <= i < ts.push(t).len() implies settled(#[trigger] ts.push(t)[i]) by {
        if i < ts.len() {
            assert(ts.push(t)[i] == ts[i]);
        }
    }
}

proof fn lemma_drop_settled(ts: Seq<TokenView>, n: int)
    requires
        all_settled(ts),
        0 <= n <= ts.len(),
    ensures
        all_settled(ts.take(n)),
{
    assert forall|i: int| 0 <= i < ts.take(n).len() implies settled(#[trigger] ts.take(n)[i]) by {
        assert(ts.take(n)[i] == ts[i]);
    }
}

proof fn lemma_eat_whitespace_settled(m: ParserModel)
    requires
        all_settled(m.tokens),
    ensures
        all_settled(m.eat_whitespace().0.tokens),
{
    match m.classify_token() {
        TokenClassView::WhiteSpace(s, pos) => {
            assert(m.tokens.drop_last() =~= m.tokens.take(m.tokens.len() - 1));
            lemma_drop_settled(m.tokens, m.tokens.len() - 1);
            lemma_push_settled(m.tokens.drop_last(), TokenView::Text(s.take(pos as int)));
        },
        TokenClassView::NewLineWhiteSpace(s, pos) => {
            assert(m.tokens.drop_last() =~= m.tokens.take(m.tokens.len() - 1));
            lemma_drop_settled(m.tokens, m.tokens.len() - 1);
            lemma_push_settled(m.tokens.drop_last(), TokenView::Text(s.take(pos as int)));
        },
        _ => {},
    }
}

proof fn lemma_add_partial_settled(m: ParserModel, content: Seq<char>, tag: Seq<char>)
    requires
        all_settled(m.tokens),
    ensures
        m.add_partial(content, tag) matches Ok(n) ==> all_settled(n.tokens),
{
    lemma_eat_whitespace_settled(m);
    match m.add_partial(content, tag) {
        Ok(n) => {
            let before = m.eat_whitespace().0.tokens;
            assert(n.tokens == before.push(n.tokens.last()));
            lemma_push_settled(before, n.tokens.last());
        },
        Err(_) => {},
    }
}

proof fn lemma_add_value_tag_settled(
    m: ParserModel,
    raw: Seq<char>,
    escaped: bool,
    tag: Seq<char>,
)
    requires
        all_settled(m.tokens),
    ensures
        m.add_value_tag(raw, escaped, tag) matches Ok(n) ==> all_settled(n.tokens),
{
    match m.add_value_tag(raw, escaped, tag) {
        Ok(n) => {
            lemma_push_settled(m.tokens, n.tokens.last());
        },
        Err(_) => {},
    }
}

proof fn lemma_close_section_settled(m: ParserModel, name: Seq<Seq<char>>, tag: Seq<char>)
    requires
        all_settled(m.tokens),
    ensures
        m.close_section(name, tag) matches Ok(n) ==> all_settled(n.tokens),
{
    lemma_last_open_is_last(m.tokens);
    match m.close_section(name, tag) {
        Ok(n) => {
            let i = last_open(m.tokens);
            let children = m.tokens.subrange(i + 1, m.tokens.len() as int);
            let section = n.tokens.last();
            assert forall|j: int| 0 <= j < children.len() implies token_complete(
                #[trigger] children[j],
            ) by {
                assert(children[j] == m.tokens[i + 1 + j]);
                assert(settled(m.tokens[i + 1 + j]));
            }
            assert(section->Section_2 == children);
            assert(token_complete(section));
            lemma_drop_settled(m.tokens, i);
            lemma_push_settled(m.tokens.take(i), section);
        },
        Err(_) => {},
    }
}

proof fn lemma_dispatch_settled(m: ParserModel, content: Seq<char>, k: nat, tag: Seq<char>)
    requires
        all_settled(m.tokens),
        k < content.len(),
    ensures
        m.dispatch(content, k, tag) matches Ok(n) ==> all_settled(n.tokens),
{
    reveal(ParserModel::dispatch);
    let tail = content.skip(k as int);
    let rest = tail.skip(1);
    let sigil = tail[0];
    lemma_eat_whitespace_settled(m);
    let q = m.eat_whitespace().0;
    if sigil == '!' {
    } else if sigil == '&' {
        lemma_add_value_tag_settled(m, rest, false, tag);
    } else if sigil == '{' {
        lemma_add_value_tag_settled(m, tail.subrange(1, tail.len() - 1), false, tag);
    } else if sigil == '#' || sigil == '^' {
        match m.open_section(rest, sigil == '^', tag) {
            Ok(n) => {
                lemma_push_settled(q.tokens, n.tokens.last());
            },
            Err(_) => {},
        }
    } else if sigil == '/' {
        match crate::parser_model::check_content_spec(rest) {
            Ok(name) => {
                lemma_close_section_settled(q, crate::text::path_spec(name), tag);
            },
            Err(_) => {},
        }
    } else if sigil == '>' {
        lemma_add_partial_settled(m, rest, tag);
    } else if sigil == '=' {
    } else {
        lemma_add_value_tag_settled(m, content, true, tag);
    }
}

proof fn lemma_add_text_settled(m: ParserModel)
    requires
        all_settled(m.tokens),
    ensures
        all_settled(m.add_text().tokens),
        all_settled(m.not_otag().add_text().tokens),
        all_settled(m.not_ctag().add_text().tokens),
{
    lemma_push_settled(m.tokens, TokenView::Text(m.content));
    lemma_push_settled(m.tokens, TokenView::Text(m.not_otag().content));
    lemma_push_settled(m.tokens, TokenView::Text(m.not_ctag().content));
}

proof fn lemma_step_settled(m: ParserModel)
    requires
        all_settled(m.tokens),
        m.pos < m.src.len(),
    ensures
        m.step() matches Ok(n) ==> all_settled(n.tokens),
{
    lemma_add_text_settled(m);
    let p = ParserModel { content: Seq::empty(), ..m.bump() };
    let k = crate::text::leading_ws(m.content);
    if k < m.content.len() {
        lemma_dispatch_settled(p, m.content, k, m.otag + m.content + m.ctag);
    }
}

proof fn lemma_run_settled(m: ParserModel)
    requires
        all_settled(m.tokens),
    ensures
        m.run() matches Ok(n) ==> all_settled(n.tokens),
    decreases m.src.len() - m.pos,
{
    if m.pos < m.src.len() {
        lemma_step_settled(m);
        match m.step() {
            Ok(next) => {
                if next.src == m.src && m.pos < next.pos <= next.src.len() {
                    lemma_run_settled(next);
                }
            },
            Err(_) => {},
        }
    }
}

/// The tokens of a template that parses hold no open-section marker, at any
/// depth: every section that was opened has been closed and folded.
pub proof fn law_parsed_tokens_are_complete(src: Seq<char>, otag: Seq<char>, ctag: Seq<char>)
    ensures
        parse_spec(src, otag, ctag) matches Ok((tokens, _)) ==> tokens_complete(tokens),
{
    if otag.len() > 0 && ctag.len() > 0 {
        let start = ParserModel::initial(src, otag, ctag);
        lemma_run_settled(start);
        match start.run() {
            Ok(m) => {
                lemma_add_text_settled(m);
                match m.finish() {
                    Ok((tokens, _)) => {
                        lemma_last_open_is_last(tokens);
                        assert forall|i: int| 0 <= i < tokens.len() implies token_complete(
                            #[trigger] tokens[i],
                        ) by {
                            assert(settled(tokens[i]));
                        }
                    },
                    Err(_) => {},
                }
            },
            Err(_) => {},
        }
    }
}

/// Over characters that do not begin an opening delimiter, the parser in
/// text does nothing but gather them.
pub proof fn lemma_run_plain(m: ParserModel, n: nat)
    requires
        m.wf(),
        m.state is Text,
        m.pos + n <= m.src.len(),
        forall|j: int| m.pos <= j < m.pos + n ==> #[trigger] m.src[j] != m.otag[0],
    ensures
        m.run() == (ParserModel {
            pos: m.pos + n,
            content: m.content + m.src.subrange(m.pos as int, (m.pos + n) as int),
            ..m
        }).run(),
    decreases n,
{
    let target = ParserModel {
        pos: m.pos + n,
        content: m.content + m.src.subrange(m.pos as int, (m.pos + n) as int),
        ..m
    };
    if n == 0 {
        assert(target.content =~= m.content);
        assert(target == m);
    } else {
        let next = m.push_content(m.src[m.pos as int]).bump();
        assert(m.step() == Ok::<ParserModel, Error>(next));
        assert(m.run() == next.run());
        lemma_run_plain(next, (n - 1) as nat);
        let after = ParserModel {
            pos: next.pos + (n - 1) as nat,
            content: next.content + next.src.subrange(next.pos as int, next.pos + n - 1),
            ..next
        };
        assert(after.content =~= target.content);
        assert(after == target);
    }
}

/// Inside a tag whose content has begun and holds no open brace to close,
/// the parser does nothing but gather the characters that do not begin the
/// closing delimiter.
pub proof fn lemma_run_tag_content(m: ParserModel, n: nat)
    requires
        m.wf(),
        m.state is Tag,
        m.content.len() > 0,
        !m.curly,
        m.pos + n <= m.src.len(),
        forall|j: int| m.pos <= j < m.pos + n ==> #[trigger] m.src[j] != m.ctag[0],
    ensures
        m.run() == (ParserModel {
            pos: m.pos + n,
            content: m.content + m.src.subrange(m.pos as int, (m.pos + n) as int),
            ..m
        }).run(),
    decreases n,
{
    let target = ParserModel {
        pos: m.pos + n,
        content: m.content + m.src.subrange(m.pos as int, (m.pos + n) as int),
        ..m
    };
    if n == 0 {
        assert(target.content =~= m.content);
        assert(target == m);
    } else {
        let next = m.push_content(m.src[m.pos as int]).bump();
        assert(m.step() == Ok::<ParserModel, Error>(next));
        assert(m.run() == next.run());
        lemma_run_tag_content(next, (n - 1) as nat);
        let after = ParserModel {
            pos: next.pos + (n - 1) as nat,
            content: next.content + next.src.subrange(next.pos as int, next.pos + n - 1),
            ..next
        };
        assert(after.content =~= target.content);
        assert(after == target);
    }
}

/// The tokens that a text makes: itself, unless it is empty.
pub open spec fn text_tokens(s: Seq<char>) -> Seq<TokenView> {
    if s.len() == 0 {
        Seq::empty()
    } else {
        seq![TokenView::Text(s)]
    }
}

/// A template without the first character of the opening delimiter is one text.
pub proof fn law_plain_text_parses_to_itself(src: Seq<char>)
    requires
        forall|j: int| 0 <= j < src.len() ==> #[trigger] src[j] != '{',
    ensures
        parse_spec(src, default_otag(), default_ctag()) == Ok::<
            (Seq<TokenView>, Seq<Seq<char>>),
            Error,
        >((text_tokens(src), Seq::empty())),
{
    let start = ParserModel::initial(src, default_otag(), default_ctag());
    lemma_run_plain(start, src.len());
    let end = ParserModel {
        pos: src.len(),
        content: start.content + src.subrange(0, src.len() as int),
        ..start
    };
    assert(end.content =~= src);
    assert(end.run() == Ok::<ParserModel, Error>(end));
    assert(end.add_text().tokens =~= text_tokens(src));
    assert(last_open(Seq::<TokenView>::empty()) == -1);
    if src.len() > 0 {
        let ts = seq![TokenView::Text(src)];
        assert(ts.drop_last() =~= Seq::<TokenView>::empty());
        assert(last_open(ts) == -1) by {
            reveal_with_fuel(last_open, 2);
        }
    }
}

/// Where `{{` stands before a character `c` that is no brace, the parser in
/// text turns what it has gathered into a text token and enters the tag,
/// whose content begins with `c`.
pub proof fn lemma_open_tag(m: ParserModel, c: char)
    requires
        m.wf(),
        m.state is Text,
        m.otag == default_otag(),
        m.ctag == default_ctag(),
        m.pos + 3 <= m.src.len(),
        m.src[m.pos as int] == '{',
        m.src[m.pos as int + 1] == '{',
        m.src[m.pos as int + 2] == c,
        c != '{',
        c != '}',
    ensures
        m.run() == (ParserModel {
            pos: m.pos + 3,
            content: seq![c],
            state: ParserState::Tag,
            tag_position: 1,
            curly: false,
            ..m.add_text()
        }).run(),
{
    let m1 = ParserModel { tag_position: 1, state: ParserState::OTag, ..m }.bump();
    assert(m.step() == Ok::<ParserModel, Error>(m1));
    assert(m.run() == m1.run());
    let m2 = ParserModel { curly: false, state: ParserState::Tag, ..m1.add_text() }.bump();
    assert(m1.step() == Ok::<ParserModel, Error>(m2));
    assert(m1.run() == m2.run());
    let m3 = m2.push_content(c).bump();
    assert(m2.content.len() == 0);
    assert(m2.step() == Ok::<ParserModel, Error>(m3));
    assert(m2.run() == m3.run());
    let target = ParserModel {
        pos: m.pos + 3,
        content: seq![c],
        state: ParserState::Tag,
        tag_position: 1,
        curly: false,
        ..m.add_text()
    };
    assert(m3.content =~= target.content);
    assert(m3 == target);
}

/// Removing the whitespace around a tag moves the parser forward, within
/// the template, and changes neither the template nor the delimiters.
pub proof fn lemma_eat_whitespace_bounds(p: ParserModel)
    requires
        p.wf(),
    ensures
        ({
            let q = p.eat_whitespace().0;
            &&& q.wf()
            &&& q.src == p.src
            &&& p.pos <= q.pos <= q.src.len()
            &&& q.state == p.state
            &&& q.otag == p.otag
            &&& q.ctag == p.ctag
            &&& q.content == p.content
            &&& q.partials == p.partials
        }),
{
    lemma_line_tail(p.src, p.pos);
}

/// Where `}}` closes a comment, the parser drops the comment and, where it
/// stood alone on its line, the whitespace before it and the rest of its
/// line.
pub proof fn lemma_close_comment(m: ParserModel)
    requires
        m.wf(),
        m.state is Tag,
        m.ctag == default_ctag(),
        !m.curly,
        m.content.len() > 0,
        m.content[0] == '!',
        m.pos + 2 <= m.src.len(),
        m.src[m.pos as int] == '}',
        m.src[m.pos as int + 1] == '}',
    ensures
        m.run() == (ParserModel {
            state: ParserState::Text,
            ..(ParserModel {
                content: Seq::empty(),
                pos: m.pos + 2,
                tag_position: 1,
                state: ParserState::CTag,
                ..m
            }).eat_whitespace().0
        }).run(),
{
    let m1 = ParserModel { tag_position: 1, state: ParserState::CTag, ..m }.bump();
    assert(m.step() == Ok::<ParserModel, Error>(m1));
    assert(m.run() == m1.run());
    let p = ParserModel { content: Seq::empty(), ..m1.bump() };
    let tag = m1.otag + m1.content + m1.ctag;
    assert(crate::text::leading_ws(m1.content) == 0);
    assert(m1.content.skip(0)[0] == '!');
    assert(m1.add_tag() == p.dispatch(m1.content, 0, tag));
    assert(p.dispatch(m1.content, 0, tag) == Ok::<ParserModel, Error>(p.eat_whitespace().0)) by {
        reveal(ParserModel::dispatch);
    }
    let m2 = ParserModel { state: ParserState::Text, ..p.eat_whitespace().0 };
    assert(m1.step() == Ok::<ParserModel, Error>(m2));
    lemma_eat_whitespace_bounds(p);
    assert(m2.src == m1.src && m1.pos < m2.pos <= m2.src.len());
    assert(m1.run() == m2.run());
    assert(p == ParserModel {
        content: Seq::<char>::empty(),
        pos: m.pos + 2,
        tag_position: 1,
        state: ParserState::CTag,
        ..m
    });
}

/// What ends the line of a tag: a line feed, a carriage return and a line
/// feed, or the end of the template.
pub open spec fn ends_line(nl: Seq<char>, post: Seq<char>) -> bool {
    nl == seq!['\n'] || nl == seq!['\r', '\n'] || (nl.len() == 0 && post.len() == 0)
}

/// Holds of whitespace that can stand between a tag and the end of its
/// line: blanks only.
pub open spec fn is_padding(w: Seq<char>) -> bool {
    forall|j: int| 0 <= j < w.len() ==> is_blank(#[trigger] w[j])
}

/// A comment with the body `body`.
pub open spec fn comment_tag(body: Seq<char>) -> Seq<char> {
    seq!['{', '{', '!'] + body + seq!['}', '}']
}

/// A line that holds a comment and whitespace around it: the whitespace
/// `ws`, the comment, the whitespace `pad`, and the line's end `nl`.
pub open spec fn comment_line(
    ws: Seq<char>,
    body: Seq<char>,
    pad: Seq<char>,
    nl: Seq<char>,
) -> Seq<char> {
    ws + comment_tag(body) + pad + nl
}

/// The tokens of the text before a comment that stands alone on its line:
/// the text without the whitespace that led up to the comment.
pub open spec fn trimmed_tokens(pre: Seq<char>, ws: Seq<char>) -> Seq<TokenView> {
    if pre.len() > 0 {
        seq![TokenView::Text(pre)]
    } else if ws.len() > 0 {
        seq![TokenView::Text(Seq::empty())]
    } else {
        Seq::empty()
    }
}

/// The characters of a line that holds a comment.
proof fn lemma_comment_source(ws: Seq<char>, body: Seq<char>, pad: Seq<char>, nl: Seq<char>)
    ensures
        ({
            let line = comment_line(ws, body, pad, nl);
            let a = ws.len();
            let b = a + 3;
            let c = b + body.len();
            let d = c + 2;
            let e = d + pad.len();
            &&& line.len() == e + nl.len()
            &&& forall|j: int|
                0 <= j < line.len() ==> #[trigger] line[j] == (if j < a {
                    ws[j]
                } else if j < a + 2 {
                    '{'
                } else if j < b {
                    '!'
                } else if j < c {
                    body[j - b]
                } else if j < d {
                    '}'
                } else if j < e {
                    pad[j - d]
                } else {
                    nl[j - e]
                })
        }),
{
    let line = comment_line(ws, body, pad, nl);
    let a = ws.len();
    let d = a + 3 + body.len() + 2;
    let tag = comment_tag(body);
    assert(tag.len() == body.len() + 5);
    assert forall|j: int| a <= j < d implies #[trigger] line[j] == tag[j - a] by {}
}

/// Where the whitespace ends that begins at `p`, when `n` blanks stand
/// there before a line's end: behind them, or at the last of them where that
/// is a carriage return before a line feed.
proof fn lemma_line_tail_run(src: Seq<char>, p: nat, n: nat)
    requires
        p + n <= src.len(),
        forall|j: int| p <= j < p + n ==> is_blank(#[trigger] src[j]),
        p + n < src.len() ==> src[(p + n) as int] == '\n' || (src[(p + n) as int] == '\r' && p + n
            + 1 < src.len() && src[(p + n) as int + 1] == '\n'),
    ensures
        line_tail(src, p) == p + n || (n > 0 && line_tail(src, p) == p + n - 1 && src[p + n - 1]
            == '\r' && p + n < src.len() && src[(p + n) as int] == '\n'),
    decreases n,
{
    if n > 0 {
        assert(is_blank(src[p as int]));
        if src[p as int] == '\r' && p + 1 < src.len() && src[p as int + 1] == '\n' {
            if n > 1 {
                assert(is_blank(src[p as int + 1]));
            }
        } else {
            lemma_line_tail_run(src, p + 1, (n - 1) as nat);
        }
    }
}

/// Before a comment that stands alone on its line, the whitespace that led
/// up to it is cut off the text, and the rest of the line is passed over.
proof fn lemma_trim_before_comment(
    p: ParserModel,
    base: Seq<TokenView>,
    pre: Seq<char>,
    ws: Seq<char>,
)
    requires
        p.at_line_end(),
        p.tokens == base + text_tokens(pre + ws),
        p.text_since_tag == ((pre + ws).len() > 0),
        pre.len() == 0 ==> p.fresh_line,
        pre.len() > 0 ==> pre.last() == '\n',
        forall|j: int| 0 <= j < ws.len() ==> is_blank(#[trigger] ws[j]),
    ensures
        p.eat_whitespace().0 == (ParserModel {
            tokens: base + trimmed_tokens(pre, ws),
            fresh_line: true,
            text_since_tag: false,
            ..p.skip_newline()
        }),
{
    let lead = pre + ws;
    let kept = trimmed_tokens(pre, ws);
    if lead.len() > 0 {
        assert(p.tokens.last() == TokenView::Text(lead));
        assert(p.tokens.drop_last() =~= base);
        assert forall|j: int| lead.len() - ws.len() <= j < lead.len() implies is_blank(
            #[trigger] lead[j],
        ) by {
            assert(lead[j] == ws[j - pre.len()]);
        }
        if pre.len() > 0 {
            assert(lead[lead.len() - ws.len() - 1] == pre.last());
        }
        crate::parser::lemma_trailing_blank(lead, ws.len() as int);
        if ws.len() > 0 {
            if pre.len() > 0 {
                assert(lead.take(pre.len() as int) =~= pre);
                assert(p.tokens.drop_last().push(
                    TokenView::Text(lead.take((lead.len() - ws.len()) as int)),
                ) =~= base + kept);
            } else {
                assert(lead.take(0) =~= Seq::<char>::empty());
                assert(p.tokens.drop_last().push(TokenView::Text(lead.take(0))) =~= base + kept);
            }
        } else {
            assert(p.tokens =~= base + kept);
            assert(p.skip_newline().tokens == p.tokens);
        }
    } else {
        assert(p.tokens =~= base + kept);
        assert(p.skip_newline().tokens == p.tokens);
    }
}

/// A comment that stands alone on its line goes with its whole line,
/// whatever the template holds before and after: from a parser in text, at
/// the start of a line, the whitespace `ws`, the comment, the whitespace
/// `pad` and the line's end `nl` leave the text gathered so far as a token
/// and the parser behind the line, at the start of the next one.
#[verifier::rlimit(40)]
pub proof fn law_standalone_comment_line(
    m: ParserModel,
    ws: Seq<char>,
    body: Seq<char>,
    pad: Seq<char>,
    nl: Seq<char>,
)
    requires
        m.wf(),
        m.state is Text,
        m.otag == default_otag(),
        m.ctag == default_ctag(),
        !m.text_since_tag,
        m.content.len() == 0 ==> m.fresh_line,
        m.content.len() > 0 ==> m.content.last() == '\n',
        m.pos + comment_line(ws, body, pad, nl).len() <= m.src.len(),
        m.src.subrange(
            m.pos as int,
            (m.pos + comment_line(ws, body, pad, nl).len()) as int,
        )
            == comment_line(ws, body, pad, nl),
        forall|j: int| 0 <= j < ws.len() ==> is_blank(#[trigger] ws[j]),
        forall|j: int| 0 <= j < body.len() ==> #[trigger] body[j] != '}',
        is_padding(pad),
        nl == seq!['\n'] || nl == seq!['\r', '\n'] || (nl.len() == 0 && m.pos + comment_line(
            ws,
            body,
            pad,
            nl,
        ).len() == m.src.len()),
    ensures
        m.run() == (ParserModel {
            pos: m.pos + comment_line(ws, body, pad, nl).len(),
            content: Seq::empty(),
            tag_position: 1,
            curly: false,
            tokens: m.tokens + trimmed_tokens(m.content, ws),
            fresh_line: true,
            text_since_tag: false,
            ..m
        }).run(),
{
    let src = m.src;
    let line = comment_line(ws, body, pad, nl);
    let o = m.pos;
    let a = o + ws.len();
    let b = a + 3;
    let c = b + body.len();
    let d = c + 2;
    let e = d + pad.len();
    let f = e + nl.len();
    lemma_comment_source(ws, body, pad, nl);
    assert forall|j: int| o <= j < f implies #[trigger] src[j] == line[j - o] by {
        assert(src.subrange(o as int, f as int)[j - o] == src[j]);
    }
    let pre = m.content;
    let lead = pre + ws;
    let inside = seq!['!'] + body;
    let m1 = ParserModel { pos: a as nat, content: lead, ..m };
    let m4 = ParserModel {
        pos: b as nat,
        content: seq!['!'],
        state: ParserState::Tag,
        tag_position: 1,
        curly: false,
        ..m1.add_text()
    };
    let m5 = ParserModel { pos: c as nat, content: inside, ..m4 };
    let p = ParserModel {
        content: Seq::<char>::empty(),
        pos: d as nat,
        tag_position: 1,
        state: ParserState::CTag,
        ..m5
    };
    let m7 = ParserModel {
        pos: f as nat,
        content: Seq::empty(),
        tag_position: 1,
        curly: false,
        tokens: m.tokens + trimmed_tokens(pre, ws),
        fresh_line: true,
        text_since_tag: false,
        ..m
    };
    assert(m.run() == m1.run()) by {
        assert forall|j: int| o <= j < a implies #[trigger] src[j] != '{' by {
            assert(is_blank(ws[j - o]));
        }
        lemma_run_plain(m, ws.len());
        assert(m.content + src.subrange(o as int, a as int) =~= lead);
    }
    assert(m1.run() == m4.run()) by {
        assert(src[a as int] == '{');
        assert(src[a as int + 1] == '{');
        assert(src[a as int + 2] == '!');
        lemma_open_tag(m1, '!');
    }
    assert(m4.run() == m5.run()) by {
        assert forall|j: int| b <= j < c implies #[trigger] src[j] != '}' by {
            assert(src[j] == body[j - b]);
        }
        lemma_run_tag_content(m4, body.len());
        assert(m4.content + src.subrange(b as int, c as int) =~= inside);
    }
    assert(m5.run() == m7.run()) by {
        assert(src[c as int] == '}');
        assert(src[c as int + 1] == '}');
        lemma_close_comment(m5);
        assert forall|j: int| d <= j < e implies is_blank(#[trigger] src[j]) by {
            assert(src[j] == pad[j - d]);
        }
        if nl.len() > 0 {
            assert(src[e as int] == nl[0]);
            if nl.len() > 1 {
                assert(src[e as int + 1] == nl[1]);
            }
        }
        lemma_line_tail_run(src, d as nat, pad.len());
        assert(p.at_line_end());
        assert(p.tokens =~= m.tokens + text_tokens(lead));
        lemma_trim_before_comment(p, m.tokens, pre, ws);
        assert(p.skip_newline().pos == f);
    }
}

/// A comment that stands alone on its line, in a template that is text
/// otherwise, leaves the text before its line and the text after its line:
/// the whitespace on both sides of it and the end of its line are gone with
/// it.
pub proof fn law_standalone_comment_tokens(
    pre: Seq<char>,
    ws: Seq<char>,
    body: Seq<char>,
    pad: Seq<char>,
    nl: Seq<char>,
    post: Seq<char>,
)
    requires
        forall|j: int| 0 <= j < pre.len() ==> #[trigger] pre[j] != '{',
        pre.len() == 0 || pre.last() == '\n',
        forall|j: int| 0 <= j < ws.len() ==> is_blank(#[trigger] ws[j]),
        forall|j: int| 0 <= j < body.len() ==> #[trigger] body[j] != '}',
        is_padding(pad),
        ends_line(nl, post),
        forall|j: int| 0 <= j < post.len() ==> #[trigger] post[j] != '{',
    ensures
        parse_spec(pre + comment_line(ws, body, pad, nl) + post, default_otag(), default_ctag())
            == Ok::<(Seq<TokenView>, Seq<Seq<char>>), Error>(
            (trimmed_tokens(pre, ws) + text_tokens(post), Seq::empty()),
        ),
{
    let line = comment_line(ws, body, pad, nl);
    let src = pre + line + post;
    let o = pre.len();
    let f = o + line.len();
    let kept = trimmed_tokens(pre, ws);
    let m0 = ParserModel::initial(src, default_otag(), default_ctag());
    let m1 = ParserModel { pos: o as nat, content: pre, ..m0 };
    let m7 = ParserModel {
        pos: f as nat,
        content: Seq::empty(),
        tag_position: 1,
        curly: false,
        tokens: m1.tokens + kept,
        fresh_line: true,
        text_since_tag: false,
        ..m1
    };
    let m8 = ParserModel { pos: src.len(), content: post, ..m7 };
    assert(m0.run() == m1.run()) by {
        lemma_run_plain(m0, o as nat);
        assert(m0.content + src.subrange(0, o as int) =~= pre);
    }
    assert(m1.run() == m7.run()) by {
        assert(src.subrange(o as int, f as int) =~= line);
        law_standalone_comment_line(m1, ws, body, pad, nl);
    }
    assert(m7.run() == m8.run()) by {
        lemma_run_plain(m7, post.len());
        assert(m7.content + src.subrange(f as int, src.len() as int) =~= post);
    }
    assert(m8.run() == Ok::<ParserModel, Error>(m8));
    let all = kept + text_tokens(post);
    assert(m7.tokens =~= kept);
    assert(m8.add_text().tokens =~= all);
    crate::parser::lemma_last_open(all, 0);
}

/// The names of the partials that `t` includes, in the order of the source.
pub open spec fn token_partials(t: TokenView) -> Seq<Seq<char>>
    decreases t, 1nat,
{
    match t {
        TokenView::Partial(name, _, _) => seq![name],
        TokenView::Section(_, _, children, _, _, _, _, _) => included_partials(children),
        _ => Seq::empty(),
    }
}

/// The names of the partials that `ts` include, in the order of the source.
pub open spec fn included_partials(ts: Seq<TokenView>) -> Seq<Seq<char>>
    decreases ts, 0nat,
{
    if ts.len() == 0 {
        Seq::empty()
    } else {
        included_partials(ts.drop_last()) + token_partials(ts.last())
    }
}

proof fn lemma_partials_concat(a: Seq<TokenView>, b: Seq<TokenView>)
    ensures
        included_partials(a + b) == included_partials(a) + included_partials(b),
    decreases b.len(),
{
    if b.len() == 0 {
        assert(a + b =~= a);
        assert(included_partials(a) + Seq::<Seq<char>>::empty() =~= included_partials(a));
    } else {
        assert((a + b).drop_last() =~= a + b.drop_last());
        assert((a + b).last() == b.last());
        lemma_partials_concat(a, b.drop_last());
        assert(included_partials(a + b) =~= included_partials(a) + included_partials(b));
    }
}

proof fn lemma_partials_push(ts: Seq<TokenView>, t: TokenView)
    ensures
        included_partials(ts.push(t)) == included_partials(ts) + token_partials(t),
{
    assert(ts.push(t).drop_last() =~= ts);
    assert(ts.push(t).last() == t);
}

proof fn lemma_partials_retext(ts: Seq<TokenView>, s: Seq<char>)
    requires
        ts.len() > 0,
        ts.last() is Text,
    ensures
        included_partials(ts.drop_last().push(TokenView::Text(s))) == included_partials(ts),
{
    lemma_partials_push(ts.drop_last(), TokenView::Text(s));
    assert(token_partials(ts.last()) =~= Seq::<Seq<char>>::empty());
    assert(included_partials(ts) == included_partials(ts.drop_last()) + token_partials(
        ts.last(),
    ));
    assert(included_partials(ts) =~= included_partials(ts.drop_last()));
    assert(included_partials(ts.drop_last()) + Seq::<Seq<char>>::empty() =~= included_partials(
        ts.drop_last(),
    ));
}

proof fn lemma_eat_whitespace_partials(m: ParserModel)
    ensures
        included_partials(m.eat_whitespace().0.tokens) == included_partials(m.tokens),
        m.eat_whitespace().0.partials == m.partials,
{
    match m.classify_token() {
        TokenClassView::WhiteSpace(s, pos) => {
            lemma_partials_retext(m.tokens, s.take(pos as int));
        },
        TokenClassView::NewLineWhiteSpace(_, _) => {},
        _ => {},
    }
}

proof fn lemma_close_section_partials(m: ParserModel, name: Seq<Seq<char>>, tag: Seq<char>)
    ensures
        m.close_section(name, tag) matches Ok(n) ==> included_partials(n.tokens)
            == included_partials(m.tokens) && n.partials == m.partials,
{
    lemma_last_open_is_last(m.tokens);
    match m.close_section(name, tag) {
        Ok(n) => {
            let i = last_open(m.tokens);
            let before = m.tokens.take(i);
            let marker = seq![m.tokens[i]];
            let children = m.tokens.subrange(i + 1, m.tokens.len() as int);
            assert(m.tokens =~= before + marker + children);
            lemma_partials_concat(before + marker, children);
            lemma_partials_concat(before, marker);
            assert(included_partials(marker) =~= Seq::<Seq<char>>::empty()) by {
                reveal_with_fuel(included_partials, 2);
                assert(marker.drop_last() =~= Seq::<TokenView>::empty());
            }
            lemma_partials_push(before, n.tokens.last());
            assert(token_partials(n.tokens.last()) == included_partials(children));
            assert(included_partials(before) + Seq::<Seq<char>>::empty() + included_partials(
                children,
            ) =~= included_partials(before) + included_partials(children));
        },
        Err(_) => {},
    }
}

proof fn lemma_dispatch_partials(m: ParserModel, content: Seq<char>, k: nat, tag: Seq<char>)
    requires
        m.partials == included_partials(m.tokens),
        k < content.len(),
    ensures
        m.dispatch(content, k, tag) matches Ok(n) ==> n.partials == included_partials(n.tokens),
{
    reveal(ParserModel::dispatch);
    let tail = content.skip(k as int);
    let rest = tail.skip(1);
    let sigil = tail[0];
    lemma_eat_whitespace_partials(m);
    let q = m.eat_whitespace().0;
    match m.dispatch(content, k, tag) {
        Ok(n) => {
            if sigil == '!' || sigil == '=' {
            } else if sigil == '/' {
                match crate::parser_model::check_content_spec(rest) {
                    Ok(name) => {
                        lemma_close_section_partials(q, crate::text::path_spec(name), tag);
                    },
                    Err(_) => {},
                }
            } else if sigil == '#' || sigil == '^' {
                lemma_partials_push(q.tokens, n.tokens.last());
                assert(included_partials(q.tokens) + Seq::<Seq<char>>::empty()
                    =~= included_partials(q.tokens));
            } else if sigil == '>' {
                let cls = m.classify_token();
                let base = if cls is Normal {
                    m
                } else if cls is StandAlone {
                    m.skip_newline()
                } else {
                    q
                };
                assert(included_partials(base.tokens) == included_partials(m.tokens));
                lemma_partials_push(base.tokens, n.tokens.last());
                assert(n.tokens == base.tokens.push(n.tokens.last()));
            } else {
                lemma_partials_push(m.tokens, n.tokens.last());
                assert(included_partials(m.tokens) + Seq::<Seq<char>>::empty()
                    =~= included_partials(m.tokens));
            }
        },
        Err(_) => {},
    }
}

proof fn lemma_add_text_partials(m: ParserModel)
    requires
        m.partials == included_partials(m.tokens),
    ensures
        m.add_text().partials == included_partials(m.add_text().tokens),
        m.not_otag().add_text().partials == included_partials(m.not_otag().add_text().tokens),
        m.not_ctag().add_text().partials == included_partials(m.not_ctag().add_text().tokens),
{
    lemma_partials_push(m.tokens, TokenView::Text(m.content));
    lemma_partials_push(m.tokens, TokenView::Text(m.not_otag().content));
    lemma_partials_push(m.tokens, TokenView::Text(m.not_ctag().content));
    assert(included_partials(m.tokens) + Seq::<Seq<char>>::empty() =~= included_partials(
        m.tokens,
    ));
}

proof fn lemma_step_partials(m: ParserModel)
    requires
        m.partials == included_partials(m.tokens),
        m.pos < m.src.len(),
    ensures
        m.step() matches Ok(n) ==> n.partials == included_partials(n.tokens),
{
    lemma_add_text_partials(m);
    let p = ParserModel { content: Seq::empty(), ..m.bump() };
    let k = crate::text::leading_ws(m.content);
    if k < m.content.len() {
        lemma_dispatch_partials(p, m.content, k, m.otag + m.content + m.ctag);
    }
}

proof fn lemma_run_partials(m: ParserModel)
    requires
        m.partials == included_partials(m.tokens),
    ensures
        m.run() matches Ok(n) ==> n.partials == included_partials(n.tokens),
    decreases m.src.len() - m.pos,
{
    if m.pos < m.src.len() {
        lemma_step_partials(m);
        match m.step() {
            Ok(next) => {
                if next.src == m.src && m.pos < next.pos <= next.src.len() {
                    lemma_run_partials(next);
                }
            },
            Err(_) => {},
        }
    }
}

/// The names that parsing gives are those of the partials that the tokens
/// include, in the order of the source.
pub proof fn law_parsed_names_are_the_partials(src: Seq<char>, otag: Seq<char>, ctag: Seq<char>)
    ensures
        parse_spec(src, otag, ctag) matches Ok((tokens, names)) ==> names == included_partials(
            tokens,
        ),
{
    if otag.len() > 0 && ctag.len() > 0 {
        let start = ParserModel::initial(src, otag, ctag);
        assert(included_partials(start.tokens) =~= start.partials);
        lemma_run_partials(start);
        match start.run() {
            Ok(m) => {
                lemma_add_text_partials(m);
            },
            Err(_) => {},
        }
    }
}

/// Holds of a name that an interpolation can hold as it is: it is not
/// empty, holds no brace and no whitespace, and does not begin with a sigil.
pub open spec fn is_plain_name(name: Seq<char>) -> bool {
    &&& name.len() > 0
    &&& forall|j: int|
        0 <= j < name.len() ==> {
            let c = #[trigger] name[j];
            c != '{' && c != '}' && !crate::text::is_whitespace_spec(c)
        }
    &&& name[0] != '!'
    &&& name[0] != '&'
    &&& name[0] != '#'
    &&& name[0] != '^'
    &&& name[0] != '/'
    &&& name[0] != '>'
    &&& name[0] != '='
}

/// Where `}}` closes an interpolation of a plain name, the parser adds the
/// escaped tag of that name.
pub proof fn lemma_close_interpolation(m: ParserModel)
    requires
        m.wf(),
        m.state is Tag,
        m.otag == default_otag(),
        m.ctag == default_ctag(),
        !m.curly,
        is_plain_name(m.content),
        m.pos + 2 <= m.src.len(),
        m.src[m.pos as int] == '}',
        m.src[m.pos as int + 1] == '}',
    ensures
        m.run() == (ParserModel {
            content: Seq::empty(),
            pos: m.pos + 2,
            tag_position: 1,
            state: ParserState::Text,
            tokens: m.tokens.push(
                TokenView::EscapedTag(
                    crate::text::path_spec(m.content),
                    default_otag() + m.content + default_ctag(),
                ),
            ),
            fresh_line: false,
            text_since_tag: false,
            ..m
        }).run(),
{
    let name = m.content;
    let m1 = ParserModel { tag_position: 1, state: ParserState::CTag, ..m }.bump();
    assert(m.step() == Ok::<ParserModel, Error>(m1));
    assert(m.run() == m1.run());
    let p = ParserModel { content: Seq::empty(), ..m1.bump() };
    let tag = m1.otag + m1.content + m1.ctag;
    assert(crate::text::leading_ws(name) == 0);
    assert(crate::text::trailing_ws(name) == 0) by {
        assert(!crate::text::is_whitespace_spec(name[name.len() - 1]));
    }
    assert(crate::text::trim_spec(name) =~= name);
    assert(name.skip(0)[0] == name[0]);
    assert(m1.add_tag() == p.dispatch(name, 0, tag));
    assert(p.dispatch(name, 0, tag) == p.add_value_tag(name, true, tag)) by {
        reveal(ParserModel::dispatch);
    }
    let done = p.settle(false).push_token(
        TokenView::EscapedTag(crate::text::path_spec(name), tag),
    );
    assert(p.add_value_tag(name, true, tag) == Ok::<ParserModel, Error>(done));
    let m2 = ParserModel { state: ParserState::Text, ..done };
    assert(m1.step() == Ok::<ParserModel, Error>(m2));
    assert(m1.run() == m2.run());
}

/// A template that is text but for one interpolation of a plain name is the
/// text before it, the escaped tag of the name, and the text after it.
pub proof fn law_interpolation_tokens(pre: Seq<char>, name: Seq<char>, post: Seq<char>)
    requires
        forall|j: int| 0 <= j < pre.len() ==> #[trigger] pre[j] != '{',
        is_plain_name(name),
        forall|j: int| 0 <= j < post.len() ==> #[trigger] post[j] != '{',
    ensures
        parse_spec(
            pre + default_otag() + name + default_ctag() + post,
            default_otag(),
            default_ctag(),
        ) == Ok::<(Seq<TokenView>, Seq<Seq<char>>), Error>(
            (
                text_tokens(pre).push(
                    TokenView::EscapedTag(
                        crate::text::path_spec(name),
                        default_otag() + name + default_ctag(),
                    ),
                ) + text_tokens(post),
                Seq::empty(),
            ),
        ),
{
    let src = pre + default_otag() + name + default_ctag() + post;
    let a = pre.len();
    let b = a + 2;
    let c = b + name.len();
    let d = c + 2;
    assert(src.len() == d + post.len());
    assert forall|j: int| 0 <= j < src.len() implies #[trigger] src[j] == (if j < a {
        pre[j]
    } else if j < b {
        '{'
    } else if j < c {
        name[j - b]
    } else if j < d {
        '}'
    } else {
        post[j - d]
    }) by {}
    let tag = default_otag() + name + default_ctag();
    let token = TokenView::EscapedTag(crate::text::path_spec(name), tag);
    let first = text_tokens(pre);
    let m0 = ParserModel::initial(src, default_otag(), default_ctag());
    let m1 = ParserModel { pos: a as nat, content: pre, ..m0 };
    let m2 = ParserModel {
        pos: (b + 1) as nat,
        content: seq![name[0]],
        state: ParserState::Tag,
        tag_position: 1,
        curly: false,
        ..m1.add_text()
    };
    let m3 = ParserModel { pos: c as nat, content: name, ..m2 };
    let m4 = ParserModel {
        content: Seq::<char>::empty(),
        pos: d as nat,
        state: ParserState::Text,
        tokens: first.push(token),
        fresh_line: false,
        text_since_tag: false,
        ..m3
    };
    let m5 = ParserModel { pos: src.len(), content: post, ..m4 };
    assert(m0.run() == m1.run()) by {
        lemma_run_plain(m0, a as nat);
        assert(m0.content + src.subrange(0, a as int) =~= pre);
    }
    assert(m1.run() == m2.run()) by {
        assert(src[b as int] == name[0]);
        lemma_open_tag(m1, name[0]);
    }
    assert(m2.tokens =~= first);
    assert(m2.run() == m3.run()) by {
        assert forall|j: int| m2.pos <= j < m2.pos + (name.len() - 1) implies #[trigger] src[j]
            != '}' by {
            assert(src[j] == name[j - b]);
        }
        lemma_run_tag_content(m2, (name.len() - 1) as nat);
        assert(m2.content + src.subrange(b as int + 1, c as int) =~= name);
    }
    assert(m3.run() == m4.run()) by {
        lemma_close_interpolation(m3);
    }
    assert(m4.run() == m5.run()) by {
        lemma_run_plain(m4, post.len());
        assert(m4.content + src.subrange(d as int, src.len() as int) =~= post);
    }
    assert(m5.run() == Ok::<ParserModel, Error>(m5));
    let all = first.push(token) + text_tokens(post);
    assert(m5.add_text().tokens =~= all);
    crate::parser::lemma_last_open(all, 0);
}

} // verus!
