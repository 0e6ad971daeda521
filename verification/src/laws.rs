//! Laws of rendering, proved of the functions that say what rendering
//! produces.

use vstd::prelude::*;
use crate::data::{fun_free, index_of, lemma_index_of_bounds, Data};
use crate::compiler::compile_spec;
use crate::parser_laws::{
    comment_line,
    ends_line,
    is_padding,
    included_partials,
    law_parsed_names_are_the_partials,
    law_plain_text_parses_to_itself,
    law_standalone_comment_tokens,
    text_tokens,
    token_partials,
    trimmed_tokens,
};
use crate::error::Error;
use crate::template::{render_template, rendered_as, TemplateView};
use crate::parser_model::{default_ctag, default_otag, is_blank, parse_spec};
use crate::render_model::{
    escape_char,
    escape_spec,
    find_root,
    find_spec,
    indent_if,
    indent_text,
    is_absent,
    line_start_after,
    render_items,
    render_token,
    render_tokens,
    render_value,
    unwrap_opt,
    walk_path,
    Call,
    Cursor,
    Env,
    Outcome,
    Rendered,
    MAX_DEPTH,
};
use crate::token::TokenView;

verus! {

/// The five sequences that escaping produces.
pub open spec fn is_entity(e: Seq<char>) -> bool {
    ||| e == seq!['&', 'l', 't', ';']
    ||| e == seq!['&', 'g', 't', ';']
    ||| e == seq!['&', 'a', 'm', 'p', ';']
    ||| e == seq!['&', 'q', 'u', 'o', 't', ';']
    ||| e == seq!['&', '#', '3', '9', ';']
}

/// Does one of the five sequences stand in `s` at `i`?
pub open spec fn entity_at(s: Seq<char>, i: int) -> bool {
    exists|n: int| #![trigger s.subrange(i, i + n)] 4 <= n <= 6 && i + n <= s.len() && is_entity(s.subrange(i, i + n))
}

/// Holds of text without `<`, `>`, `"` and `'`, in which `&` stands only
/// where one of the five escape sequences begins.
pub open spec fn no_markup(s: Seq<char>) -> bool {
    forall|i: int|
        0 <= i < s.len() ==> {
            let c = #[trigger] s[i];
            &&& c != '<'
            &&& c != '>'
            &&& c != '"'
            &&& c != '\''
            &&& c == '&' ==> entity_at(s, i)
        }
}

/// Escaped text holds no `<`, `>`, `"` or `'`, and holds `&` only where one
/// of the five escape sequences begins.
pub proof fn law_escaped_has_no_markup(s: Seq<char>)
    ensures
        forall|i: int|
            0 <= i < escape_spec(s).len() ==> {
                let c = #[trigger] escape_spec(s)[i];
                &&& c != '<'
                &&& c != '>'
                &&& c != '"'
                &&& c != '\''
                &&& c == '&' ==> entity_at(escape_spec(s), i)
            },
    decreases s.len(),
{
    if s.len() > 0 {
        let head = escape_spec(s.drop_last());
        let last = escape_char(s.last());
        let all = escape_spec(s);
        law_escaped_has_no_markup(s.drop_last());
        assert(all == head + last);
        assert forall|i: int| 0 <= i < all.len() implies {
            let c = #[trigger] all[i];
            &&& c != '<'
            &&& c != '>'
            &&& c != '"'
            &&& c != '\''
            &&& c == '&' ==> entity_at(all, i)
        } by {
            if i < head.len() {
                assert(all[i] == head[i]);
                if head[i] == '&' {
                    let n = choose|n: int| #![trigger head.subrange(i, i + n)]
                        4 <= n <= 6 && i + n <= head.len() && is_entity(head.subrange(i, i + n));
                    assert(all.subrange(i, i + n) =~= head.subrange(i, i + n));
                }
            } else {
                let j = i - head.len();
                assert(all[i] == last[j]);
                if all[i] == '&' {
                    assert(j == 0);
                    assert(all.subrange(i, i + last.len()) =~= last);
                    assert(is_entity(last));
                }
            }
        }
    }
}

/// An escaped interpolation of a string writes the string in one piece,
/// escaped; so nothing of the string reaches the output as markup.
pub proof fn law_escaped_interpolation(
    path: Seq<Seq<char>>,
    src: Seq<char>,
    s: String,
    stack: Seq<Data>,
    env: Env,
    indent: Seq<char>,
    at: Cursor,
    depth: nat,
)
    requires
        find_spec(stack, path) == Some(Data::Str(s)),
    ensures
        render_token(TokenView::EscapedTag(path, src), stack, env, indent, at, depth) == (Rendered {
            out: escape_spec(Rendered::written(s@, indent, at).out),
            ..Rendered::written(s@, indent, at)
        }),
{
    let token = TokenView::EscapedTag(path, src);
    let r = render_value(token, find_spec(stack, path), stack, env, indent, at, depth);
    assert(r.end is Done);
}

/// An unescaped interpolation of a string writes the string as it is, after
/// the indent where it starts a line; without an indent the output is the
/// string.
pub proof fn law_unescaped_interpolation(
    path: Seq<Seq<char>>,
    src: Seq<char>,
    s: String,
    stack: Seq<Data>,
    env: Env,
    indent: Seq<char>,
    at: Cursor,
    depth: nat,
)
    requires
        find_spec(stack, path) == Some(Data::Str(s)),
    ensures
        render_token(TokenView::UnescapedTag(path, src), stack, env, indent, at, depth)
            == Rendered::written(s@, indent, at),
        render_token(
            TokenView::UnescapedTag(path, src),
            stack,
            env,
            Seq::empty(),
            at,
            depth,
        ).out == s@,
{
    assert(Seq::<char>::empty() + s@ =~= s@);
}

/// A section over a list renders its children once for each item, the item
/// pushed on the stack, one rendering after the other.
pub proof fn law_section_over_list(
    token: TokenView,
    items: Vec<Data>,
    stack: Seq<Data>,
    env: Env,
    indent: Seq<char>,
    at: Cursor,
    depth: nat,
)
    requires
        token matches TokenView::Section(path, inverted, _, _, _, _, _, _) && !inverted
            && find_spec(stack, path) == Some(Data::Vec(items)),
    ensures
        render_token(token, stack, env, indent, at, depth) == render_items(
            token->Section_2,
            items@,
            items@.len(),
            stack,
            env,
            indent,
            at,
            depth,
        ),
        render_items(token->Section_2, items@, 0, stack, env, indent, at, depth)
            == Rendered::nothing(at),
        forall|n: nat|
            n < items@.len() ==> #[trigger] render_items(
                token->Section_2,
                items@,
                n + 1,
                stack,
                env,
                indent,
                at,
                depth,
            ) == {
                let first = render_items(
                    token->Section_2,
                    items@,
                    n,
                    stack,
                    env,
                    indent,
                    at,
                    depth,
                );
                first.followed_by(
                    render_tokens(
                        token->Section_2,
                        stack.push(items@[n as int]),
                        env,
                        indent,
                        first.at,
                        depth,
                    ),
                )
            },
{
    let children = token->Section_2;
    assert forall|n: nat| n < items@.len() implies #[trigger] render_items(
        children,
        items@,
        n + 1,
        stack,
        env,
        indent,
        at,
        depth,
    ) == {
        let first = render_items(children, items@, n, stack, env, indent, at, depth);
        first.followed_by(
            render_tokens(children, stack.push(items@[n as int]), env, indent, first.at, depth),
        )
    } by {
        assert(((n + 1) - 1) as nat == n);
    }
}

/// A section over a list of three items writes what its children render to
/// for the first, the second and the third item, in that order.
pub proof fn law_section_over_three(
    children: Seq<TokenView>,
    items: Seq<Data>,
    stack: Seq<Data>,
    env: Env,
    indent: Seq<char>,
    at: Cursor,
    depth: nat,
)
    requires
        items.len() == 3,
        render_items(children, items, 3, stack, env, indent, at, depth).end is Done,
    ensures
        ({
            let a = render_tokens(children, stack.push(items[0]), env, indent, at, depth);
            let b = render_tokens(children, stack.push(items[1]), env, indent, a.at, depth);
            let c = render_tokens(children, stack.push(items[2]), env, indent, b.at, depth);
            &&& a.end is Done
            &&& b.end is Done
            &&& c.end is Done
            &&& render_items(children, items, 3, stack, env, indent, at, depth).out == a.out
                + b.out + c.out
        }),
{
    let r0 = render_items(children, items, 0, stack, env, indent, at, depth);
    let r1 = render_items(children, items, 1, stack, env, indent, at, depth);
    let r2 = render_items(children, items, 2, stack, env, indent, at, depth);
    let r3 = render_items(children, items, 3, stack, env, indent, at, depth);
    let a = render_tokens(children, stack.push(items[0]), env, indent, at, depth);
    assert(r0 == Rendered::nothing(at));
    assert(r1 == r0.followed_by(a));
    assert(r1.out =~= a.out);
    let b = render_tokens(children, stack.push(items[1]), env, indent, a.at, depth);
    assert(r2.end is Done ==> r2 == r1.followed_by(b));
    let c = render_tokens(children, stack.push(items[2]), env, indent, b.at, depth);
    assert(r3 == r2.followed_by(c) || r3 == r2);
}

/// An inverted section renders its children where its name resolves to
/// nothing, to `false`, to an empty list or to an absent value, and renders
/// nothing otherwise.
pub proof fn law_inverted_section(
    token: TokenView,
    stack: Seq<Data>,
    env: Env,
    indent: Seq<char>,
    at: Cursor,
    depth: nat,
)
    requires
        token matches TokenView::Section(_, inverted, _, _, _, _, _, _) && inverted,
    ensures
        ({
            let found = find_spec(stack, token->Section_0);
            let absent = found matches None || (found matches Some(Data::Bool(b)) && !b) || (
            found matches Some(Data::Vec(v)) && v@.len() == 0) || (found matches Some(
                Data::Opt(o),
            ) && o is None);
            &&& absent == is_absent(found)
            &&& absent ==> render_token(token, stack, env, indent, at, depth) == render_tokens(
                token->Section_2,
                stack,
                env,
                indent,
                at,
                depth,
            )
            &&& !absent ==> render_token(token, stack, env, indent, at, depth)
                == Rendered::nothing(at)
        }),
{
}

/// A partial that is there renders as its tokens in the same scope, one
/// level deeper, with its indent added to the indent; a partial that is
/// missing renders nothing.
pub proof fn law_partial(
    name: Seq<char>,
    ind: Seq<char>,
    src: Seq<char>,
    stack: Seq<Data>,
    env: Env,
    indent: Seq<char>,
    at: Cursor,
    depth: nat,
)
    ensures
        env.partials.contains_key(name) && depth > 0 ==> render_token(
            TokenView::Partial(name, ind, src),
            stack,
            env,
            indent,
            at,
            depth,
        ) == render_tokens(
            env.partials[name],
            stack,
            env,
            indent + ind,
            at,
            (depth - 1) as nat,
        ),
        !env.partials.contains_key(name) ==> render_token(
            TokenView::Partial(name, ind, src),
            stack,
            env,
            indent,
            at,
            depth,
        ) == Rendered::nothing(at),
{
}

/// A template of one token renders as that token.
pub proof fn law_render_one_token(
    token: TokenView,
    stack: Seq<Data>,
    env: Env,
    indent: Seq<char>,
    at: Cursor,
    depth: nat,
)
    ensures
        render_tokens(seq![token], stack, env, indent, at, depth) == render_token(
            token,
            stack,
            env,
            indent,
            at,
            depth,
        ),
{
    reveal_with_fuel(render_tokens, 2);
    let one = seq![token];
    assert(one.drop_last() =~= Seq::<TokenView>::empty());
    assert(one.last() == token);
    let r = render_token(token, stack, env, indent, at, depth);
    assert(Seq::<char>::empty() + r.out =~= r.out);
}

/// What a rendering appends for the escaped interpolation of a string,
/// without an indent: the string, escaped, and nothing of it as markup.
pub proof fn law_rendered_escaped(
    path: Seq<Seq<char>>,
    src: Seq<char>,
    s: String,
    stack: Seq<Data>,
    env: Env,
    depth: nat,
    before: Seq<char>,
    after: Seq<char>,
    res: Result<(), Error>,
)
    requires
        find_spec(stack, path) == Some(Data::Str(s)),
        rendered_as(
            render_tokens(
                seq![TokenView::EscapedTag(path, src)],
                stack,
                env,
                Seq::empty(),
                Cursor::start(),
                depth,
            ),
            before,
            after,
            res,
        ),
    ensures
        res is Ok,
        after == before + escape_spec(s@),
        no_markup(escape_spec(s@)),
{
    let token = TokenView::EscapedTag(path, src);
    law_render_one_token(token, stack, env, Seq::empty(), Cursor::start(), depth);
    law_escaped_interpolation(path, src, s, stack, env, Seq::empty(), Cursor::start(), depth);
    assert(Seq::<char>::empty() + s@ =~= s@);
    law_escaped_has_no_markup(s@);
}

/// What a rendering appends for the unescaped interpolation of a string,
/// without an indent: the string as it is.
pub proof fn law_rendered_unescaped(
    path: Seq<Seq<char>>,
    src: Seq<char>,
    s: String,
    stack: Seq<Data>,
    env: Env,
    depth: nat,
    before: Seq<char>,
    after: Seq<char>,
    res: Result<(), Error>,
)
    requires
        find_spec(stack, path) == Some(Data::Str(s)),
        rendered_as(
            render_tokens(
                seq![TokenView::UnescapedTag(path, src)],
                stack,
                env,
                Seq::empty(),
                Cursor::start(),
                depth,
            ),
            before,
            after,
            res,
        ),
    ensures
        res is Ok,
        after == before + s@,
{
    let token = TokenView::UnescapedTag(path, src);
    law_render_one_token(token, stack, env, Seq::empty(), Cursor::start(), depth);
    law_unescaped_interpolation(path, src, s, stack, env, Seq::empty(), Cursor::start(), depth);
    assert(Seq::<char>::empty() + s@ =~= s@);
}

/// What a rendering that succeeds appends for a section over a list of
/// three items: what its children render to with the first item pushed on
/// the stack, then with the second, then with the third.
pub proof fn law_rendered_section_over_three(
    token: TokenView,
    items: Vec<Data>,
    stack: Seq<Data>,
    env: Env,
    indent: Seq<char>,
    depth: nat,
    before: Seq<char>,
    after: Seq<char>,
)
    requires
        token matches TokenView::Section(path, inverted, _, _, _, _, _, _) && !inverted
            && find_spec(stack, path) == Some(Data::Vec(items)),
        items@.len() == 3,
        rendered_as(
            render_tokens(seq![token], stack, env, indent, Cursor::start(), depth),
            before,
            after,
            Ok(()),
        ),
    ensures
        ({
            let body = token->Section_2;
            let at = Cursor::start();
            let a = render_tokens(body, stack.push(items@[0]), env, indent, at, depth);
            let b = render_tokens(body, stack.push(items@[1]), env, indent, a.at, depth);
            let c = render_tokens(body, stack.push(items@[2]), env, indent, b.at, depth);
            after == before + a.out + b.out + c.out
        }),
{
    let at = Cursor::start();
    law_render_one_token(token, stack, env, indent, at, depth);
    law_section_over_list(token, items, stack, env, indent, at, depth);
    law_section_over_three(token->Section_2, items@, stack, env, indent, at, depth);
    let body = token->Section_2;
    let a = render_tokens(body, stack.push(items@[0]), env, indent, at, depth);
    let b = render_tokens(body, stack.push(items@[1]), env, indent, a.at, depth);
    let c = render_tokens(body, stack.push(items@[2]), env, indent, b.at, depth);
    assert(before + (a.out + b.out + c.out) =~= before + a.out + b.out + c.out);
}

/// What a rendering appends for an inverted section: what its children
/// render to where its name resolves to nothing, to `false`, to an empty
/// list or to an absent value, and nothing otherwise.
pub proof fn law_rendered_inverted_section(
    token: TokenView,
    stack: Seq<Data>,
    env: Env,
    indent: Seq<char>,
    depth: nat,
    before: Seq<char>,
    after: Seq<char>,
    res: Result<(), Error>,
)
    requires
        token matches TokenView::Section(_, inverted, _, _, _, _, _, _) && inverted,
        rendered_as(
            render_tokens(seq![token], stack, env, indent, Cursor::start(), depth),
            before,
            after,
            res,
        ),
    ensures
        is_absent(find_spec(stack, token->Section_0)) ==> rendered_as(
            render_tokens(token->Section_2, stack, env, indent, Cursor::start(), depth),
            before,
            after,
            res,
        ),
        !is_absent(find_spec(stack, token->Section_0)) ==> res is Ok && after == before,
{
    law_render_one_token(token, stack, env, indent, Cursor::start(), depth);
    law_inverted_section(token, stack, env, indent, Cursor::start(), depth);
    assert(before + Seq::<char>::empty() =~= before);
}

/// What a rendering appends for the inclusion of a partial: what the
/// partial's own tokens render to against the same stack, under the indent
/// with the indent of the inclusion added, one level deeper; and nothing
/// where the partial is missing.
pub proof fn law_rendered_partial(
    name: Seq<char>,
    ind: Seq<char>,
    src: Seq<char>,
    stack: Seq<Data>,
    env: Env,
    indent: Seq<char>,
    depth: nat,
    before: Seq<char>,
    after: Seq<char>,
    res: Result<(), Error>,
)
    requires
        depth > 0,
        rendered_as(
            render_tokens(
                seq![TokenView::Partial(name, ind, src)],
                stack,
                env,
                indent,
                Cursor::start(),
                depth,
            ),
            before,
            after,
            res,
        ),
    ensures
        env.partials.contains_key(name) ==> rendered_as(
            render_tokens(
                env.partials[name],
                stack,
                env,
                indent + ind,
                Cursor::start(),
                (depth - 1) as nat,
            ),
            before,
            after,
            res,
        ),
        !env.partials.contains_key(name) ==> res is Ok && after == before,
{
    let token = TokenView::Partial(name, ind, src);
    law_render_one_token(token, stack, env, indent, Cursor::start(), depth);
    law_partial(name, ind, src, stack, env, indent, Cursor::start(), depth);
    assert(before + Seq::<char>::empty() =~= before);
}

/// Two renderings of templates compiled from one source, against the same
/// stack and with lambdas that were asked and answered alike, append the
/// same text and end alike.
pub proof fn law_recompiled_renders_alike(
    src: Seq<char>,
    first: TemplateView,
    second: TemplateView,
    stack: Seq<Data>,
    calls: Seq<Call>,
    indent: Seq<char>,
    depth: nat,
    before: Seq<char>,
    after_first: Seq<char>,
    after_second: Seq<char>,
    res_first: Result<(), Error>,
    res_second: Result<(), Error>,
)
    requires
        compile_spec(src) == Ok::<TemplateView, Error>(first),
        compile_spec(src) == Ok::<TemplateView, Error>(second),
        rendered_as(
            render_tokens(
                first.tokens,
                stack,
                Env { partials: first.partials, calls },
                indent,
                Cursor::start(),
                depth,
            ),
            before,
            after_first,
            res_first,
        ),
        rendered_as(
            render_tokens(
                second.tokens,
                stack,
                Env { partials: second.partials, calls },
                indent,
                Cursor::start(),
                depth,
            ),
            before,
            after_second,
            res_second,
        ),
    ensures
        after_first == after_second,
        res_first == res_second,
{
    match (res_first, res_second) {
        (Ok(a), Ok(b)) => {
            assert(a == b);
        },
        _ => {},
    }
}

/// Text written under an indent is its parts written one after the other.
pub proof fn law_indent_text_concat(a: Seq<char>, b: Seq<char>, indent: Seq<char>, line_start: bool)
    ensures
        indent_text(a + b, indent, line_start) == indent_text(a, indent, line_start)
            + indent_text(b, indent, line_start_after(a, line_start)),
        line_start_after(a + b, line_start) == line_start_after(
            b,
            line_start_after(a, line_start),
        ),
    decreases b.len(),
{
    if b.len() == 0 {
        assert(a + b =~= a);
        assert(indent_text(a, indent, line_start) + Seq::<char>::empty() =~= indent_text(
            a,
            indent,
            line_start,
        ));
    } else {
        let whole = a + b;
        assert(whole.drop_last() =~= a + b.drop_last());
        assert(whole.last() == b.last());
        law_indent_text_concat(a, b.drop_last(), indent, line_start);
        let starts_whole = line_start_after(whole.drop_last(), line_start);
        let starts_b = line_start_after(b.drop_last(), line_start_after(a, line_start));
        assert(starts_whole == starts_b);
        assert(indent_text(whole, indent, line_start) =~= indent_text(a, indent, line_start) + (
        indent_text(b.drop_last(), indent, line_start_after(a, line_start)) + indent_if(
            indent,
            starts_b && b.last() != '\n',
        ) + seq![b.last()]));
    }
}

/// Under an indent, every character that starts a line and is not a line
/// feed has the indent before it, and no other character has.
pub proof fn law_indent_text_char(c: char, indent: Seq<char>, line_start: bool)
    ensures
        indent_text(seq![c], indent, line_start) == indent_if(indent, line_start && c != '\n')
            + seq![c],
{
    let s = seq![c];
    reveal_with_fuel(indent_text, 2);
    assert(s.drop_last() =~= Seq::<char>::empty());
    assert(s.last() == c);
    assert(indent_text(s, indent, line_start) =~= indent_if(indent, line_start && c != '\n')
        + seq![c]);
}

/// A dotted name is rooted once: its first segment picks a value through
/// the stack, and the other segments are looked up from that value alone.
/// So where that value does not lead on, the name resolves to nothing,
/// whatever the frames below hold.
pub proof fn law_rooted_once(stack: Seq<Data>, path: Seq<Seq<char>>, root: Data)
    requires
        path.len() >= 2,
        find_root(stack, path[0]) == Some(root),
    ensures
        find_spec(stack, path) == walk_path(root, path, 1),
        !(root is Dict) ==> find_spec(stack, path) is None,
        root matches Data::Dict(m) && !m@.contains_key(path[1]) ==> find_spec(stack, path)
            is None,
{
}

/// The frames below the one that holds the first segment of a name do not
/// matter to what the name resolves to.
pub proof fn law_find_ignores_outer(
    outer: Seq<Data>,
    other: Seq<Data>,
    inner: Seq<Data>,
    path: Seq<Seq<char>>,
)
    requires
        path.len() >= 1,
        find_root(inner, path[0]) is Some,
    ensures
        find_spec(outer + inner, path) == find_spec(other + inner, path),
        find_spec(outer + inner, path) == find_spec(inner, path),
{
    lemma_find_root_inner(outer, inner, path[0]);
    lemma_find_root_inner(other, inner, path[0]);
}

proof fn lemma_find_root_inner(outer: Seq<Data>, inner: Seq<Data>, key: Seq<char>)
    requires
        find_root(inner, key) is Some,
    ensures
        find_root(outer + inner, key) == find_root(inner, key),
    decreases inner.len(),
{
    let whole = outer + inner;
    assert(inner.len() > 0);
    assert(whole.last() == inner.last());
    assert(whole.drop_last() =~= outer + inner.drop_last());
    match inner.last() {
        Data::Dict(m) => {
            if !m@.contains_key(key) {
                lemma_find_root_inner(outer, inner.drop_last(), key);
            }
        },
        _ => {
            lemma_find_root_inner(outer, inner.drop_last(), key);
        },
    }
}

/// Holds when neither `t` nor any token below it includes a partial.
pub open spec fn token_without_partials(t: TokenView) -> bool
    decreases t,
{
    match t {
        TokenView::Partial(_, _, _) => false,
        TokenView::Section(_, _, children, _, _, _, _, _) => forall|i: int|
            0 <= i < children.len() ==> token_without_partials(#[trigger] children[i]),
        _ => true,
    }
}

/// Holds when no token of `ts`, at any depth, includes a partial.
pub open spec fn without_partials(ts: Seq<TokenView>) -> bool {
    forall|i: int| 0 <= i < ts.len() ==> token_without_partials(#[trigger] ts[i])
}

/// A template without partials renders to the same text whatever partials
/// are there, as long as no lambda is answered: so compiling its source
/// again, in whatever place, and rendering against the same data gives the
/// same output.
pub proof fn law_render_without_partials(
    tokens: Seq<TokenView>,
    stack: Seq<Data>,
    some: Map<Seq<char>, Seq<TokenView>>,
    other: Map<Seq<char>, Seq<TokenView>>,
    indent: Seq<char>,
    at: Cursor,
    depth: nat,
)
    requires
        without_partials(tokens),
    ensures
        render_tokens(
            tokens,
            stack,
            Env { partials: some, calls: Seq::empty() },
            indent,
            at,
            depth,
        ) == render_tokens(
            tokens,
            stack,
            Env { partials: other, calls: Seq::empty() },
            indent,
            at,
            depth,
        ),
    decreases tokens, 0nat,
{
    if tokens.len() > 0 {
        let a = Env { partials: some, calls: Seq::<Call>::empty() };
        assert(without_partials(tokens.drop_last())) by {
            assert forall|i: int| 0 <= i < tokens.drop_last().len() implies token_without_partials(
                #[trigger] tokens.drop_last()[i],
            ) by {
                assert(tokens.drop_last()[i] == tokens[i]);
            }
        }
        law_render_without_partials(tokens.drop_last(), stack, some, other, indent, at, depth);
        let first = render_tokens(tokens.drop_last(), stack, a, indent, at, depth);
        assert(token_without_partials(tokens.last())) by {
            assert(tokens.last() == tokens[tokens.len() - 1]);
        }
        lemma_token_without_partials(tokens.last(), stack, some, other, indent, first.at, depth);
    }
}

proof fn lemma_token_without_partials(
    token: TokenView,
    stack: Seq<Data>,
    some: Map<Seq<char>, Seq<TokenView>>,
    other: Map<Seq<char>, Seq<TokenView>>,
    indent: Seq<char>,
    at: Cursor,
    depth: nat,
)
    requires
        token_without_partials(token),
    ensures
        render_token(
            token,
            stack,
            Env { partials: some, calls: Seq::empty() },
            indent,
            at,
            depth,
        ) == render_token(
            token,
            stack,
            Env { partials: other, calls: Seq::empty() },
            indent,
            at,
            depth,
        ),
    decreases token, 1nat,
{
    let a = Env { partials: some, calls: Seq::<Call>::empty() };
    let b = Env { partials: other, calls: Seq::<Call>::empty() };
    match token {
        TokenView::Section(path, inverted, children, _, _, _, _, _) => {
            assert(without_partials(children));
            law_render_without_partials(children, stack, some, other, indent, at, depth);
            match find_spec(stack, path) {
                Some(value) => {
                    match value {
                        Data::Vec(items) => {
                            lemma_items_without_partials(
                                children,
                                items@,
                                items@.len(),
                                stack,
                                some,
                                other,
                                indent,
                                at,
                                depth,
                            );
                        },
                        Data::Opt(o) => {
                            match o {
                                Some(inner) => {
                                    law_render_without_partials(
                                        children,
                                        stack.push(*inner),
                                        some,
                                        other,
                                        indent,
                                        at,
                                        depth,
                                    );
                                },
                                None => {},
                            }
                        },
                        _ => {
                            law_render_without_partials(
                                children,
                                stack.push(value),
                                some,
                                other,
                                indent,
                                at,
                                depth,
                            );
                        },
                    }
                },
                None => {},
            }
        },
        TokenView::EscapedTag(path, _) => {
            let found = find_spec(stack, path);
            assert(render_value(token, found, stack, a, indent, at, depth) == render_value(
                token,
                found,
                stack,
                b,
                indent,
                at,
                depth,
            ));
        },
        TokenView::UnescapedTag(path, _) => {
            let found = find_spec(stack, path);
            assert(render_value(token, found, stack, a, indent, at, depth) == render_value(
                token,
                found,
                stack,
                b,
                indent,
                at,
                depth,
            ));
        },
        _ => {},
    }
}

proof fn lemma_items_without_partials(
    children: Seq<TokenView>,
    items: Seq<Data>,
    n: nat,
    stack: Seq<Data>,
    some: Map<Seq<char>, Seq<TokenView>>,
    other: Map<Seq<char>, Seq<TokenView>>,
    indent: Seq<char>,
    at: Cursor,
    depth: nat,
)
    requires
        without_partials(children),
    ensures
        render_items(
            children,
            items,
            n,
            stack,
            Env { partials: some, calls: Seq::empty() },
            indent,
            at,
            depth,
        ) == render_items(
            children,
            items,
            n,
            stack,
            Env { partials: other, calls: Seq::empty() },
            indent,
            at,
            depth,
        ),
    decreases children, n + 1,
{
    if n > 0 && n <= items.len() {
        let a = Env { partials: some, calls: Seq::<Call>::empty() };
        lemma_items_without_partials(
            children,
            items,
            (n - 1) as nat,
            stack,
            some,
            other,
            indent,
            at,
            depth,
        );
        let first = render_items(children, items, (n - 1) as nat, stack, a, indent, at, depth);
        law_render_without_partials(
            children,
            stack.push(items[n - 1]),
            some,
            other,
            indent,
            first.at,
            depth,
        );
    }
}

/// Tokens that are one text render as that text.
pub proof fn lemma_render_text_tokens(
    s: Seq<char>,
    stack: Seq<Data>,
    env: Env,
    indent: Seq<char>,
    at: Cursor,
    depth: nat,
)
    ensures
        render_tokens(text_tokens(s), stack, env, indent, at, depth) == (Rendered {
            out: indent_text(s, indent, at.line_start),
            at: Cursor { line_start: line_start_after(s, at.line_start), ..at },
            end: Outcome::Done,
        }),
{
    reveal_with_fuel(render_tokens, 2);
    if s.len() > 0 {
        let ts = text_tokens(s);
        assert(ts.drop_last() =~= Seq::<TokenView>::empty());
        assert(ts.last() == TokenView::Text(s));
        assert(Seq::<char>::empty() + indent_text(s, indent, at.line_start) =~= indent_text(
            s,
            indent,
            at.line_start,
        ));
    }
}

/// A text token followed by the tokens of a text renders as the two texts
/// put together.
proof fn lemma_render_two_texts(
    first: Seq<char>,
    second: Seq<char>,
    stack: Seq<Data>,
    env: Env,
    indent: Seq<char>,
    at: Cursor,
    depth: nat,
)
    ensures
        render_tokens(
            seq![TokenView::Text(first)] + text_tokens(second),
            stack,
            env,
            indent,
            at,
            depth,
        ) == render_tokens(text_tokens(first + second), stack, env, indent, at, depth),
{
    let one = seq![TokenView::Text(first)];
    let both = one + text_tokens(second);
    lemma_render_text_tokens(first + second, stack, env, indent, at, depth);
    law_indent_text_concat(first, second, indent, at.line_start);
    reveal_with_fuel(render_tokens, 3);
    assert(one.drop_last() =~= Seq::<TokenView>::empty());
    assert(one.last() == TokenView::Text(first));
    let r1 = render_tokens(one, stack, env, indent, at, depth);
    assert(r1.out =~= indent_text(first, indent, at.line_start));
    reveal_with_fuel(indent_text, 2);
    if second.len() == 0 {
        assert(both =~= one);
        assert(first + second =~= first);
        if first.len() == 0 {
            assert(text_tokens(first + second) =~= Seq::<TokenView>::empty());
        }
    } else {
        assert(both.drop_last() =~= one);
        assert(both.last() == TokenView::Text(second));
        let r2 = render_tokens(both, stack, env, indent, at, depth);
        assert(r2.out =~= indent_text(first, indent, at.line_start) + indent_text(
            second,
            indent,
            line_start_after(first, at.line_start),
        ));
    }
}

/// A comment that stands alone on its line leaves no trace: a template that
/// is text but for such a comment renders as the template without the
/// comment, the whitespace on both sides of it and the end of its line.
pub proof fn law_standalone_comment(
    pre: Seq<char>,
    ws: Seq<char>,
    body: Seq<char>,
    pad: Seq<char>,
    nl: Seq<char>,
    post: Seq<char>,
    stack: Seq<Data>,
    env: Env,
    indent: Seq<char>,
    at: Cursor,
    depth: nat,
)
    requires
        forall|j: int| 0 <= j < pre.len() ==> #[trigger] pre[j] != '{',
        pre.len() == 0 || pre.last() == '\n',
        forall|j: int| 0 <= j < ws.len() ==> is_blank(#[trigger] ws[j]),
        forall|j: int| 0 <= j < body.len() ==> #[trigger] body[j] != '}',
        is_padding(pad),
        ends_line(nl, post),
        forall|j: int| 0 <= j < post.len() ==> #[trigger] post[j] != '{',
    ensures
        parse_spec(pre + comment_line(ws, body, pad, nl) + post, default_otag(), default_ctag())
            is Ok,
        parse_spec(pre + post, default_otag(), default_ctag()) is Ok,
        render_tokens(
            parse_spec(
                pre + comment_line(ws, body, pad, nl) + post,
                default_otag(),
                default_ctag(),
            )->Ok_0.0,
            stack,
            env,
            indent,
            at,
            depth,
        ) == render_tokens(
            parse_spec(pre + post, default_otag(), default_ctag())->Ok_0.0,
            stack,
            env,
            indent,
            at,
            depth,
        ),
{
    law_standalone_comment_tokens(pre, ws, body, pad, nl, post);
    assert forall|j: int| 0 <= j < (pre + post).len() implies #[trigger] (pre + post)[j]
        != '{' by {
        if j >= pre.len() {
            assert((pre + post)[j] == post[j - pre.len()]);
        }
    }
    law_plain_text_parses_to_itself(pre + post);
    let kept = trimmed_tokens(pre, ws);
    if pre.len() > 0 {
        lemma_render_two_texts(pre, post, stack, env, indent, at, depth);
    } else if ws.len() > 0 {
        lemma_render_two_texts(Seq::empty(), post, stack, env, indent, at, depth);
        assert(Seq::<char>::empty() + post =~= post);
        assert(pre + post =~= post);
    } else {
        assert(kept + text_tokens(post) =~= text_tokens(post));
        assert(pre + post =~= post);
    }
}

proof fn lemma_token_names_none(t: TokenView)
    requires
        token_partials(t).len() == 0,
    ensures
        token_without_partials(t),
    decreases t, 1nat,
{
    match t {
        TokenView::Section(_, _, children, _, _, _, _, _) => {
            lemma_names_none(children);
        },
        _ => {},
    }
}

proof fn lemma_names_none(ts: Seq<TokenView>)
    requires
        included_partials(ts).len() == 0,
    ensures
        without_partials(ts),
    decreases ts, 0nat,
{
    if ts.len() > 0 {
        lemma_names_none(ts.drop_last());
        lemma_token_names_none(ts.last());
        assert forall|i: int| 0 <= i < ts.len() implies token_without_partials(#[trigger] ts[i]) by {
            if i < ts.len() - 1 {
                assert(ts.drop_last()[i] == ts[i]);
            }
        }
    }
}

/// A template that names no partial compiles to tokens that include none,
/// and renders, as long as no lambda is answered, to the same text whatever
/// partials are there: its output is a matter of its source and of the
/// data alone.
pub proof fn law_recompile_same_output(
    src: Seq<char>,
    data: Data,
    other: Map<Seq<char>, Seq<TokenView>>,
)
    requires
        parse_spec(src, default_otag(), default_ctag()) matches Ok((_, names)) && names.len() == 0,
    ensures
        compile_spec(src) matches Ok(t) && without_partials(t.tokens) && render_template(
            t,
            data,
            Seq::empty(),
        ) == render_template(
            TemplateView { tokens: t.tokens, partials: other },
            data,
            Seq::empty(),
        ),
{
    let tokens = parse_spec(src, default_otag(), default_ctag())->Ok_0.0;
    law_parsed_names_are_the_partials(src, default_otag(), default_ctag());
    lemma_names_none(tokens);
    let t = compile_spec(src)->Ok_0;
    law_render_without_partials(
        tokens,
        seq![data],
        t.partials,
        other,
        Seq::empty(),
        Cursor::start(),
        MAX_DEPTH as nat,
    );
}

/// Holds of a stack in which no frame is or holds a callable.
pub open spec fn stack_fun_free(stack: Seq<Data>) -> bool {
    forall|i: int| 0 <= i < stack.len() ==> fun_free(#[trigger] stack[i])
}

proof fn lemma_map_value_fun_free(value: Data, key: Seq<char>)
    requires
        fun_free(value),
        value matches Data::Dict(m) && m@.contains_key(key),
    ensures
        fun_free(value->Dict_0@[key]),
{
    let m = value->Dict_0;
    m.lemma_entries();
    lemma_index_of_bounds(m.entries(), key);
    assert(fun_free(m.entries()[index_of(m.entries(), key)].1));
}

proof fn lemma_find_root_fun_free(stack: Seq<Data>, key: Seq<char>)
    requires
        stack_fun_free(stack),
    ensures
        find_root(stack, key) matches Some(v) ==> fun_free(v),
    decreases stack.len(),
{
    if stack.len() > 0 {
        assert(fun_free(stack[stack.len() - 1]));
        assert forall|i: int| 0 <= i < stack.drop_last().len() implies fun_free(
            #[trigger] stack.drop_last()[i],
        ) by {
            assert(stack.drop_last()[i] == stack[i]);
        }
        lemma_find_root_fun_free(stack.drop_last(), key);
        match stack.last() {
            Data::Dict(m) => {
                if m@.contains_key(key) {
                    lemma_map_value_fun_free(stack.last(), key);
                }
            },
            _ => {},
        }
    }
}

proof fn lemma_walk_fun_free(value: Data, path: Seq<Seq<char>>, i: int)
    requires
        fun_free(value),
    ensures
        walk_path(value, path, i) matches Some(v) ==> fun_free(v),
    decreases path.len() - i,
{
    if 0 <= i < path.len() {
        match value {
            Data::Dict(m) => {
                if m@.contains_key(path[i]) {
                    lemma_map_value_fun_free(value, path[i]);
                    lemma_walk_fun_free(m@[path[i]], path, i + 1);
                }
            },
            _ => {},
        }
    }
}

proof fn lemma_find_fun_free(stack: Seq<Data>, path: Seq<Seq<char>>)
    requires
        stack_fun_free(stack),
    ensures
        find_spec(stack, path) matches Some(v) ==> fun_free(v),
{
    if path.len() == 0 {
        if stack.len() > 0 {
            assert(fun_free(stack[stack.len() - 1]));
        }
    } else {
        lemma_find_root_fun_free(stack, path[0]);
        match find_root(stack, path[0]) {
            Some(v) => {
                lemma_walk_fun_free(v, path, 1);
            },
            None => {},
        }
    }
}

proof fn lemma_unwrap_fun_free(value: Data)
    requires
        fun_free(value),
    ensures
        unwrap_opt(value) matches Some(v) ==> fun_free(v) && !(v is Fun),
    decreases value,
{
    match value {
        Data::Opt(o) => {
            match o {
                Some(inner) => {
                    lemma_unwrap_fun_free(*inner);
                },
                None => {},
            }
        },
        _ => {},
    }
}

proof fn lemma_push_fun_free(stack: Seq<Data>, value: Data)
    requires
        stack_fun_free(stack),
        fun_free(value),
    ensures
        stack_fun_free(stack.push(value)),
{
    assert forall|i: int| 0 <= i < stack.push(value).len() implies fun_free(
        #[trigger] stack.push(value)[i],
    ) by {
        if i < stack.len() {
            assert(stack.push(value)[i] == stack[i]);
        }
    }
}

/// Against data that holds no callable, rendering calls no lambda: what is
/// rendered does not depend on the calls given, and none of them is used.
pub proof fn law_render_without_lambdas(
    tokens: Seq<TokenView>,
    stack: Seq<Data>,
    env: Env,
    other: Seq<Call>,
    indent: Seq<char>,
    at: Cursor,
    depth: nat,
)
    requires
        stack_fun_free(stack),
    ensures
        render_tokens(tokens, stack, env, indent, at, depth) == render_tokens(
            tokens,
            stack,
            Env { calls: other, ..env },
            indent,
            at,
            depth,
        ),
        render_tokens(tokens, stack, env, indent, at, depth).at.used == at.used,
    decreases depth, tokens, 0nat,
{
    if tokens.len() > 0 {
        law_render_without_lambdas(tokens.drop_last(), stack, env, other, indent, at, depth);
        let first = render_tokens(tokens.drop_last(), stack, env, indent, at, depth);
        lemma_token_without_lambdas(tokens.last(), stack, env, other, indent, first.at, depth);
    }
}

proof fn lemma_token_without_lambdas(
    token: TokenView,
    stack: Seq<Data>,
    env: Env,
    other: Seq<Call>,
    indent: Seq<char>,
    at: Cursor,
    depth: nat,
)
    requires
        stack_fun_free(stack),
    ensures
        render_token(token, stack, env, indent, at, depth) == render_token(
            token,
            stack,
            Env { calls: other, ..env },
            indent,
            at,
            depth,
        ),
        render_token(token, stack, env, indent, at, depth).at.used == at.used,
    decreases depth, token, 2nat,
{
    let env2 = Env { calls: other, ..env };
    match token {
        TokenView::EscapedTag(path, _) => {
            let found = find_spec(stack, path);
            lemma_find_fun_free(stack, path);
            match found {
                Some(v) => {
                    lemma_unwrap_fun_free(v);
                },
                None => {},
            }
            assert(render_value(token, found, stack, env, indent, at, depth) == render_value(
                token,
                found,
                stack,
                env2,
                indent,
                at,
                depth,
            ));
        },
        TokenView::UnescapedTag(path, _) => {
            let found = find_spec(stack, path);
            lemma_find_fun_free(stack, path);
            match found {
                Some(v) => {
                    lemma_unwrap_fun_free(v);
                },
                None => {},
            }
        },
        TokenView::Section(path, inverted, children, _, _, _, _, _) => {
            let found = find_spec(stack, path);
            lemma_find_fun_free(stack, path);
            law_render_without_lambdas(children, stack, env, other, indent, at, depth);
            match found {
                Some(value) => {
                    match value {
                        Data::Vec(items) => {
                            lemma_items_without_lambdas(
                                children,
                                items@,
                                items@.len(),
                                stack,
                                env,
                                other,
                                indent,
                                at,
                                depth,
                            );
                        },
                        Data::Opt(o) => {
                            match o {
                                Some(inner) => {
                                    lemma_push_fun_free(stack, *inner);
                                    law_render_without_lambdas(
                                        children,
                                        stack.push(*inner),
                                        env,
                                        other,
                                        indent,
                                        at,
                                        depth,
                                    );
                                },
                                None => {},
                            }
                        },
                        Data::Fun(_) => {},
                        _ => {
                            lemma_push_fun_free(stack, value);
                            law_render_without_lambdas(
                                children,
                                stack.push(value),
                                env,
                                other,
                                indent,
                                at,
                                depth,
                            );
                        },
                    }
                },
                None => {},
            }
        },
        TokenView::Partial(name, ind, _) => {
            if env.partials.contains_key(name) && depth > 0 {
                law_render_without_lambdas(
                    env.partials[name],
                    stack,
                    env,
                    other,
                    indent + ind,
                    at,
                    (depth - 1) as nat,
                );
            }
        },
        _ => {},
    }
}

proof fn lemma_items_without_lambdas(
    children: Seq<TokenView>,
    items: Seq<Data>,
    n: nat,
    stack: Seq<Data>,
    env: Env,
    other: Seq<Call>,
    indent: Seq<char>,
    at: Cursor,
    depth: nat,
)
    requires
        stack_fun_free(stack),
        forall|i: int| 0 <= i < items.len() ==> fun_free(#[trigger] items[i]),
    ensures
        render_items(children, items, n, stack, env, indent, at, depth) == render_items(
            children,
            items,
            n,
            stack,
            Env { calls: other, ..env },
            indent,
            at,
            depth,
        ),
        render_items(children, items, n, stack, env, indent, at, depth).at.used == at.used,
    decreases depth, children, n + 1,
{
    if n > 0 && n <= items.len() {
        lemma_items_without_lambdas(
            children,
            items,
            (n - 1) as nat,
            stack,
            env,
            other,
            indent,
            at,
            depth,
        );
        let first = render_items(children, items, (n - 1) as nat, stack, env, indent, at, depth);
        lemma_push_fun_free(stack, items[n - 1]);
        law_render_without_lambdas(
            children,
            stack.push(items[n - 1]),
            env,
            other,
            indent,
            first.at,
            depth,
        );
    }
}

/// Against data that holds no callable, what a template renders to is a
/// matter of the template and the data alone.
pub proof fn law_render_template_without_lambdas(t: TemplateView, data: Data, calls: Seq<Call>)
    requires
        fun_free(data),
    ensures
        render_template(t, data, calls) == render_template(t, data, Seq::empty()),
        render_template(t, data, calls).at.used == 0,
        !(render_template(t, data, calls).end is Lambda),
{
    let stack = seq![data];
    assert(stack_fun_free(stack));
    let env = Env { partials: t.partials, calls };
    law_render_without_lambdas(
        t.tokens,
        stack,
        env,
        Seq::empty(),
        Seq::empty(),
        Cursor::start(),
        MAX_DEPTH as nat,
    );
    lemma_never_blocked(t.tokens, stack, env, Seq::empty(), Cursor::start(), MAX_DEPTH as nat);
}

proof fn lemma_never_blocked(
    tokens: Seq<TokenView>,
    stack: Seq<Data>,
    env: Env,
    indent: Seq<char>,
    at: Cursor,
    depth: nat,
)
    requires
        stack_fun_free(stack),
    ensures
        !(render_tokens(tokens, stack, env, indent, at, depth).end is Lambda),
    decreases depth, tokens, 0nat,
{
    if tokens.len() > 0 {
        lemma_never_blocked(tokens.drop_last(), stack, env, indent, at, depth);
        let first = render_tokens(tokens.drop_last(), stack, env, indent, at, depth);
        lemma_token_never_blocked(tokens.last(), stack, env, indent, first.at, depth);
    }
}

proof fn lemma_token_never_blocked(
    token: TokenView,
    stack: Seq<Data>,
    env: Env,
    indent: Seq<char>,
    at: Cursor,
    depth: nat,
)
    requires
        stack_fun_free(stack),
    ensures
        !(render_token(token, stack, env, indent, at, depth).end is Lambda),
    decreases depth, token, 2nat,
{
    match token {
        TokenView::EscapedTag(path, _) => {
            lemma_find_fun_free(stack, path);
            match find_spec(stack, path) {
                Some(v) => {
                    lemma_unwrap_fun_free(v);
                },
                None => {},
            }
        },
        TokenView::UnescapedTag(path, _) => {
            lemma_find_fun_free(stack, path);
            match find_spec(stack, path) {
                Some(v) => {
                    lemma_unwrap_fun_free(v);
                },
                None => {},
            }
        },
        TokenView::Section(path, inverted, children, _, _, _, _, _) => {
            let found = find_spec(stack, path);
            lemma_find_fun_free(stack, path);
            lemma_never_blocked(children, stack, env, indent, at, depth);
            match found {
                Some(value) => {
                    match value {
                        Data::Vec(items) => {
                            lemma_items_never_blocked(
                                children,
                                items@,
                                items@.len(),
                                stack,
                                env,
                                indent,
                                at,
                                depth,
                            );
                        },
                        Data::Opt(o) => {
                            match o {
                                Some(inner) => {
                                    lemma_push_fun_free(stack, *inner);
                                    lemma_never_blocked(
                                        children,
                                        stack.push(*inner),
                                        env,
                                        indent,
                                        at,
                                        depth,
                                    );
                                },
                                None => {},
                            }
                        },
                        Data::Fun(_) => {},
                        _ => {
                            lemma_push_fun_free(stack, value);
                            lemma_never_blocked(
                                children,
                                stack.push(value),
                                env,
                                indent,
                                at,
                                depth,
                            );
                        },
                    }
                },
                None => {},
            }
        },
        TokenView::Partial(name, ind, _) => {
            if env.partials.contains_key(name) && depth > 0 {
                lemma_never_blocked(
                    env.partials[name],
                    stack,
                    env,
                    indent + ind,
                    at,
                    (depth - 1) as nat,
                );
            }
        },
        _ => {},
    }
}

proof fn lemma_items_never_blocked(
    children: Seq<TokenView>,
    items: Seq<Data>,
    n: nat,
    stack: Seq<Data>,
    env: Env,
    indent: Seq<char>,
    at: Cursor,
    depth: nat,
)
    requires
        stack_fun_free(stack),
        forall|i: int| 0 <= i < items.len() ==> fun_free(#[trigger] items[i]),
    ensures
        !(render_items(children, items, n, stack, env, indent, at, depth).end is Lambda),
    decreases depth, children, n + 1,
{
    if n > 0 && n <= items.len() {
        lemma_items_never_blocked(
            children,
            items,
            (n - 1) as nat,
            stack,
            env,
            indent,
            at,
            depth,
        );
        let first = render_items(children, items, (n - 1) as nat, stack, env, indent, at, depth);
        lemma_push_fun_free(stack, items[n - 1]);
        lemma_never_blocked(children, stack.push(items[n - 1]), env, indent, first.at, depth);
    }
}

} // verus!
