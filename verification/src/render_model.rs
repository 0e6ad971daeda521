//! What rendering produces, as mathematical functions of the tokens, the
//! stack of data values, the partials, the indent and the line state.
//!
//! A lambda may answer anything. So the functions here take the calls of the
//! lambdas as an argument: for each call, in the order of the calls, the text
//! handed to the lambda and the text it returned. Rendering consumes them
//! from the front and counts how many it has used; a call whose text is not
//! the one that rendering hands over is no call of this rendering.

use vstd::prelude::*;
use crate::data::Data;
use crate::error::Error;
use crate::parser_model::{default_ctag, default_otag, parse_spec};
use crate::token::TokenView;

verus! {

/// How a rendering ended.
pub enum Outcome {
    /// Everything was rendered.
    Done,
    /// Rendering stopped at an error.
    Failed(Error),
    /// Rendering reached a call of a lambda that the given calls do not hold.
    Lambda,
}

/// Where a rendering stands: whether the next character written starts a
/// line, and how many calls of lambdas have been made.
pub struct Cursor {
    pub line_start: bool,
    pub used: nat,
}

/// The result of rendering: the text produced, where the rendering stands
/// after it, and how it ended.
pub struct Rendered {
    pub out: Seq<char>,
    pub at: Cursor,
    pub end: Outcome,
}

/// One call of a lambda: the text handed over, and the text returned.
pub struct Call {
    pub asked: Seq<char>,
    pub answer: Seq<char>,
}

/// What a rendering reads and does not change: the partials, and the calls
/// of the lambdas.
pub struct Env {
    pub partials: Map<Seq<char>, Seq<TokenView>>,
    pub calls: Seq<Call>,
}

impl Cursor {
    /// The start of a rendering.
    pub open spec fn start() -> Cursor {
        Cursor { line_start: true, used: 0 }
    }
}

impl Rendered {
    /// Nothing rendered, nothing changed.
    pub open spec fn nothing(at: Cursor) -> Rendered {
        Rendered { out: Seq::empty(), at, end: Outcome::Done }
    }

    /// Nothing rendered, because of the error `e`.
    pub open spec fn failed(at: Cursor, e: Error) -> Rendered {
        Rendered { out: Seq::empty(), at, end: Outcome::Failed(e) }
    }

    /// The text `s` written in one piece: the indent goes before it where a
    /// line starts, unless the text is empty or begins with a line feed.
    pub open spec fn written(s: Seq<char>, indent: Seq<char>, at: Cursor) -> Rendered {
        Rendered {
            out: indent_if(indent, at.line_start && s.len() > 0 && s[0] != '\n') + s,
            at: Cursor { line_start: line_start_after(s, at.line_start), ..at },
            end: Outcome::Done,
        }
    }

    /// This rendering followed by `next`, which is not reached unless this
    /// one was done.
    pub open spec fn followed_by(self, next: Rendered) -> Rendered {
        if self.end is Done {
            Rendered { out: self.out + next.out, at: next.at, end: next.end }
        } else {
            self
        }
    }
}

/// The deepest nesting of partials and lambda expansions that is rendered.
pub const MAX_DEPTH: usize = 128;

/// What one character becomes when it is escaped for HTML.
pub open spec fn escape_char(c: char) -> Seq<char> {
    if c == '<' {
        seq!['&', 'l', 't', ';']
    } else if c == '>' {
        seq!['&', 'g', 't', ';']
    } else if c == '&' {
        seq!['&', 'a', 'm', 'p', ';']
    } else if c == '"' {
        seq!['&', 'q', 'u', 'o', 't', ';']
    } else if c == '\'' {
        seq!['&', '#', '3', '9', ';']
    } else {
        seq![c]
    }
}

/// `s` with each of its characters escaped for HTML.
pub open spec fn escape_spec(s: Seq<char>) -> Seq<char>
    decreases s.len(),
{
    if s.len() == 0 {
        Seq::empty()
    } else {
        escape_spec(s.drop_last()) + escape_char(s.last())
    }
}

/// Whether the next character starts a line, after `s` was written.
pub open spec fn line_start_after(s: Seq<char>, line_start: bool) -> bool {
    if s.len() == 0 {
        line_start
    } else {
        s.last() == '\n'
    }
}

/// The indent, where a line starts, and nothing elsewhere.
pub open spec fn indent_if(indent: Seq<char>, line_start: bool) -> Seq<char> {
    if line_start {
        indent
    } else {
        Seq::empty()
    }
}

/// The text `s` with the indent before each of its lines: before each
/// character that starts a line and is not itself a line feed.
pub open spec fn indent_text(s: Seq<char>, indent: Seq<char>, line_start: bool) -> Seq<char>
    decreases s.len(),
{
    if s.len() == 0 {
        Seq::empty()
    } else {
        let c = s.last();
        let starts = line_start_after(s.drop_last(), line_start);
        indent_text(s.drop_last(), indent, line_start) + indent_if(indent, starts && c != '\n')
            + seq![c]
    }
}

/// The value under `key` in the innermost frame of the stack that is a map
/// and holds the key.
pub open spec fn find_root(stack: Seq<Data>, key: Seq<char>) -> Option<Data>
    decreases stack.len(),
{
    if stack.len() == 0 {
        None
    } else {
        match stack.last() {
            Data::Dict(m) => if m@.contains_key(key) {
                Some(m@[key])
            } else {
                find_root(stack.drop_last(), key)
            },
            _ => find_root(stack.drop_last(), key),
        }
    }
}

/// The value reached from `value` along `path[i..]`, each step of which must
/// be a key of a map.
pub open spec fn walk_path(value: Data, path: Seq<Seq<char>>, i: int) -> Option<Data>
    decreases path.len() - i,
{
    if i >= path.len() || i < 0 {
        Some(value)
    } else {
        match value {
            Data::Dict(m) => if m@.contains_key(path[i]) {
                walk_path(m@[path[i]], path, i + 1)
            } else {
                None
            },
            _ => None,
        }
    }
}

/// The value that `path` names: the top of the stack for the empty path;
/// otherwise the first segment is looked up through the stack, and the rest
/// from the value found, without returning to the stack.
pub open spec fn find_spec(stack: Seq<Data>, path: Seq<Seq<char>>) -> Option<Data> {
    if path.len() == 0 {
        if stack.len() == 0 {
            None
        } else {
            Some(stack.last())
        }
    } else {
        match find_root(stack, path[0]) {
            None => None,
            Some(v) => walk_path(v, path, 1),
        }
    }
}

/// The value that an optional value stands for: nothing where it is absent,
/// and what it wraps otherwise.
pub open spec fn unwrap_opt(value: Data) -> Option<Data>
    decreases value,
{
    match value {
        Data::Opt(None) => None,
        Data::Opt(Some(inner)) => unwrap_opt(*inner),
        _ => Some(value),
    }
}

/// Does an inverted section render its children for `found`?
pub open spec fn is_absent(found: Option<Data>) -> bool {
    match found {
        None => true,
        Some(v) => v.is_falsy(),
    }
}

/// What the tokens render to, one after the other.
pub open spec fn render_tokens(
    tokens: Seq<TokenView>,
    stack: Seq<Data>,
    env: Env,
    indent: Seq<char>,
    at: Cursor,
    depth: nat,
) -> Rendered
    decreases depth, tokens, 0nat,
{
    if tokens.len() == 0 {
        Rendered::nothing(at)
    } else {
        let first = render_tokens(tokens.drop_last(), stack, env, indent, at, depth);
        if first.end is Done {
            first.followed_by(render_token(tokens.last(), stack, env, indent, first.at, depth))
        } else {
            first
        }
    }
}

/// What the children of a section render to for the first `n` of `items`,
/// each pushed on the stack in its turn.
pub open spec fn render_items(
    children: Seq<TokenView>,
    items: Seq<Data>,
    n: nat,
    stack: Seq<Data>,
    env: Env,
    indent: Seq<char>,
    at: Cursor,
    depth: nat,
) -> Rendered
    decreases depth, children, n + 1,
{
    if n == 0 || n > items.len() {
        Rendered::nothing(at)
    } else {
        let first = render_items(children, items, (n - 1) as nat, stack, env, indent, at, depth);
        if first.end is Done {
            first.followed_by(
                render_tokens(children, stack.push(items[n - 1]), env, indent, first.at, depth),
            )
        } else {
            first
        }
    }
}

/// What is rendered where the token `token` calls a lambda on the text
/// `asked`: the answer of the next call is parsed with the delimiters `otag`
/// and `ctag`, and its tokens are rendered in the scope of the call, one
/// level deeper.
pub open spec fn render_lambda(
    token: TokenView,
    asked: Seq<char>,
    otag: Seq<char>,
    ctag: Seq<char>,
    stack: Seq<Data>,
    env: Env,
    indent: Seq<char>,
    at: Cursor,
    depth: nat,
) -> Rendered
    decreases depth, token, 0nat,
{
    if at.used >= env.calls.len() || env.calls[at.used as int].asked != asked {
        Rendered { out: Seq::empty(), at, end: Outcome::Lambda }
    } else {
        let after = Cursor { used: at.used + 1, ..at };
        match parse_spec(env.calls[at.used as int].answer, otag, ctag) {
            Err(e) => Rendered::failed(after, e),
            Ok((tokens, _)) => if depth == 0 {
                Rendered::failed(after, Error::RecursionLimit)
            } else {
                render_tokens(tokens, stack, env, indent, after, (depth - 1) as nat)
            },
        }
    }
}

/// What the interpolation `token` writes, unescaped, for the value `found`:
/// nothing for an absent value; the string, written in one piece; what a
/// lambda makes of the empty text; a value that is neither is an error.
pub open spec fn render_value(
    token: TokenView,
    found: Option<Data>,
    stack: Seq<Data>,
    env: Env,
    indent: Seq<char>,
    at: Cursor,
    depth: nat,
) -> Rendered
    decreases depth, token, 1nat,
{
    match found {
        None => Rendered::nothing(at),
        Some(v) => match unwrap_opt(v) {
            None => Rendered::nothing(at),
            Some(value) => match value {
                Data::Str(s) => Rendered::written(s@, indent, at),
                Data::Fun(_) => render_lambda(
                    token,
                    Seq::empty(),
                    default_otag(),
                    default_ctag(),
                    stack,
                    env,
                    indent,
                    at,
                    depth,
                ),
                _ => Rendered::failed(at, Error::UnsupportedType),
            },
        },
    }
}

/// What one token renders to. A text renders as itself under the indent,
/// and an interpolation as the value it names, escaped or not. A section
/// renders its children: once for `true`, for a map, for a string that is
/// not empty and for an optional value that is present, the last three
/// pushed on the stack; once for each item of a list; and not at all for
/// what is absent or `false`. An inverted section renders its children for
/// what is absent, `false` or an empty list, and not at all otherwise. A
/// section over a lambda renders what the lambda makes of its inner source.
/// A partial renders as its tokens, one level deeper, with its indent added;
/// a partial that is missing renders nothing. An open-section marker is an
/// error.
pub open spec fn render_token(
    token: TokenView,
    stack: Seq<Data>,
    env: Env,
    indent: Seq<char>,
    at: Cursor,
    depth: nat,
) -> Rendered
    decreases depth, token, 2nat,
{
    match token {
        TokenView::Text(s) => Rendered {
            out: indent_text(s, indent, at.line_start),
            at: Cursor { line_start: line_start_after(s, at.line_start), ..at },
            end: Outcome::Done,
        },
        TokenView::EscapedTag(path, _) => {
            let r = render_value(token, find_spec(stack, path), stack, env, indent, at, depth);
            match r.end {
                Outcome::Done => Rendered { out: escape_spec(r.out), ..r },
                _ => Rendered { out: Seq::empty(), ..r },
            }
        },
        TokenView::UnescapedTag(path, _) => render_value(
            token,
            find_spec(stack, path),
            stack,
            env,
            indent,
            at,
            depth,
        ),
        TokenView::Section(path, inverted, children, otag, _, src, _, ctag) => {
            let found = find_spec(stack, path);
            if inverted {
                if is_absent(found) {
                    render_tokens(children, stack, env, indent, at, depth)
                } else {
                    Rendered::nothing(at)
                }
            } else {
                match found {
                    None => Rendered::nothing(at),
                    Some(value) => match value {
                        Data::Bool(b) => if b {
                            render_tokens(children, stack, env, indent, at, depth)
                        } else {
                            Rendered::nothing(at)
                        },
                        Data::Vec(items) => render_items(
                            children,
                            items@,
                            items@.len(),
                            stack,
                            env,
                            indent,
                            at,
                            depth,
                        ),
                        Data::Dict(_) => render_tokens(
                            children,
                            stack.push(value),
                            env,
                            indent,
                            at,
                            depth,
                        ),
                        Data::Str(s) => if s@.len() > 0 {
                            render_tokens(children, stack.push(value), env, indent, at, depth)
                        } else {
                            Rendered::nothing(at)
                        },
                        Data::Opt(o) => match o {
                            None => Rendered::nothing(at),
                            Some(inner) => render_tokens(
                                children,
                                stack.push(*inner),
                                env,
                                indent,
                                at,
                                depth,
                            ),
                        },
                        Data::Fun(_) => render_lambda(
                            token,
                            src,
                            otag,
                            ctag,
                            stack,
                            env,
                            indent,
                            at,
                            depth,
                        ),
                    },
                }
            }
        },
        TokenView::IncompleteSection(_, _, _, _) => Rendered::failed(at, Error::UnclosedSection),
        TokenView::Partial(name, ind, _) => {
            if !env.partials.contains_key(name) {
                Rendered::nothing(at)
            } else if depth == 0 {
                Rendered::failed(at, Error::RecursionLimit)
            } else {
                render_tokens(
                    env.partials[name],
                    stack,
                    env,
                    indent + ind,
                    at,
                    (depth - 1) as nat,
                )
            }
        },
    }
}

/// What is rendered from the text `answer` that a lambda returned: the text
/// is parsed with the delimiters `otag` and `ctag` and its tokens are
/// rendered in the scope of the call, one level deeper.
pub open spec fn render_expansion(
    answer: Seq<char>,
    otag: Seq<char>,
    ctag: Seq<char>,
    stack: Seq<Data>,
    env: Env,
    indent: Seq<char>,
    at: Cursor,
    depth: nat,
) -> Rendered {
    match parse_spec(answer, otag, ctag) {
        Err(e) => Rendered::failed(at, e),
        Ok((tokens, _)) => if depth == 0 {
            Rendered::failed(at, Error::RecursionLimit)
        } else {
            render_tokens(tokens, stack, env, indent, at, (depth - 1) as nat)
        },
    }
}

/// Do the calls `calls` begin with the calls `trace`?
pub open spec fn extends(calls: Seq<Call>, trace: Seq<Call>) -> bool {
    trace.is_prefix_of(calls)
}

/// Does the outcome of an executable rendering agree with `r`? `before` and
/// `after` are the sink before and after; `at` is where the rendering stands
/// after; `res` is what was returned.
pub open spec fn agrees(
    r: Rendered,
    before: Seq<char>,
    after: Seq<char>,
    at: Cursor,
    res: Result<(), Error>,
) -> bool {
    match r.end {
        Outcome::Done => res is Ok && after == before + r.out && at == r.at,
        Outcome::Failed(e) => res == Err::<(), Error>(e) && after == before + r.out && at.used
            == r.at.used,
        Outcome::Lambda => false,
    }
}

} // verus!
