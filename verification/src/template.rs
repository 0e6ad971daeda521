//! Compiled templates and the renderer.

use vstd::prelude::*;
use vstd::string::*;
use vstd::hash_map::StringHashMap;
use crate::context::Context;
use crate::data::{fun_free, Data, Lambda};
use crate::error::Error;
use crate::parser::parse_template;
use crate::parser_model::{default_ctag, default_otag, lemma_default_delimiters};
use crate::render_model::{
    agrees,
    escape_char,
    escape_spec,
    extends,
    find_root,
    find_spec,
    indent_if,
    indent_text,
    line_start_after,
    render_expansion,
    render_items,
    render_lambda,
    render_token,
    render_tokens,
    render_value,
    unwrap_opt,
    walk_path,
    Call,
    Cursor,
    Env,
    Outcome,
    Rendered,
    MAX_DEPTH,
};
use crate::text::{string_push, strings_view};
use crate::token::{lemma_section_children, tokens_view, Token, TokenView};

verus! {

/// The partials of a template: for each name, the tokens of the partial.
pub type PartialMap = StringHashMap<Vec<Token>>;

/// A compiled template: its tokens, and the tokens of the partials it uses.
pub struct Template {
    ctx: Context,
    tokens: Vec<Token>,
    partials: PartialMap,
}

/// The mathematical value of a [`Template`].
pub struct TemplateView {
    pub tokens: Seq<TokenView>,
    pub partials: Map<Seq<char>, Seq<TokenView>>,
}

/// The values of the token lists of a partial map.
pub open spec fn partials_view(m: Map<Seq<char>, Vec<Token>>) -> Map<Seq<char>, Seq<TokenView>> {
    Map::new(|k: Seq<char>| m.contains_key(k), |k: Seq<char>| tokens_view(m[k]@))
}

/// The values that the references of a stack point to.
pub open spec fn stack_view(stack: Seq<&Data>) -> Seq<Data> {
    Seq::new(stack.len(), |i: int| *stack[i])
}

/// The partials of `partials` together with the calls `calls`.
pub open spec fn env_of(partials: Map<Seq<char>, Vec<Token>>, calls: Seq<Call>) -> Env {
    Env { partials: partials_view(partials), calls }
}

/// The calls that a record of calls stands for: each entry holds the text
/// handed to a lambda and the text it returned.
pub open spec fn calls_of(log: Seq<(String, String)>) -> Seq<Call> {
    Seq::new(log.len(), |i: int| Call { asked: log[i].0@, answer: log[i].1@ })
}

/// Does the outcome of a rendering agree with `r`, wherever it stands after?
pub open spec fn rendered_as(
    r: Rendered,
    before: Seq<char>,
    after: Seq<char>,
    res: Result<(), Error>,
) -> bool {
    match r.end {
        Outcome::Done => res is Ok && after == before + r.out,
        Outcome::Failed(e) => res == Err::<(), Error>(e) && after == before + r.out,
        Outcome::Lambda => false,
    }
}

/// What rendering a template against `data` produces, given the calls of
/// the lambdas: the stack holds `data` alone, there is no indent, and a line
/// starts.
pub open spec fn render_template(t: TemplateView, data: Data, calls: Seq<Call>)
    -> Rendered {
    render_tokens(
        t.tokens,
        seq![data],
        Env { partials: t.partials, calls },
        Seq::empty(),
        Cursor::start(),
        MAX_DEPTH as nat,
    )
}

/// A rendering that is not done stays as it is, whatever tokens follow.
pub proof fn lemma_render_stuck(
    tokens: Seq<TokenView>,
    k: int,
    stack: Seq<Data>,
    env: Env,
    indent: Seq<char>,
    at: Cursor,
    depth: nat,
)
    requires
        0 <= k <= tokens.len(),
        !(render_tokens(tokens.take(k), stack, env, indent, at, depth).end is Done),
    ensures
        render_tokens(tokens, stack, env, indent, at, depth) == render_tokens(
            tokens.take(k),
            stack,
            env,
            indent,
            at,
            depth,
        ),
    decreases tokens.len() - k,
{
    if k < tokens.len() {
        let shorter = tokens.drop_last();
        assert(shorter.take(k) =~= tokens.take(k));
        lemma_render_stuck(shorter, k, stack, env, indent, at, depth);
    } else {
        assert(tokens.take(k) =~= tokens);
    }
}

/// A rendering of items that is not done stays as it is, whatever items follow.
pub proof fn lemma_items_stuck(
    children: Seq<TokenView>,
    items: Seq<Data>,
    k: nat,
    n: nat,
    stack: Seq<Data>,
    env: Env,
    indent: Seq<char>,
    at: Cursor,
    depth: nat,
)
    requires
        k <= n <= items.len(),
        !(render_items(children, items, k, stack, env, indent, at, depth).end is Done),
    ensures
        render_items(children, items, n, stack, env, indent, at, depth) == render_items(
            children,
            items,
            k,
            stack,
            env,
            indent,
            at,
            depth,
        ),
    decreases n - k,
{
    if k < n {
        lemma_items_stuck(children, items, k, (n - 1) as nat, stack, env, indent, at, depth);
    }
}

/// What begins with `b` begins with what `b` begins with.
pub proof fn lemma_extends_trans(a: Seq<Call>, b: Seq<Call>, c: Seq<Call>)
    requires
        a.is_prefix_of(b),
        b.is_prefix_of(c),
    ensures
        a.is_prefix_of(c),
        extends(c, a),
{
    assert(a =~= c.subrange(0, a.len() as int));
}

/// Appends the escaped form of `s` to `wr`.
fn escape_into(wr: &mut String, s: &str)
    ensures
        final(wr)@ == old(wr)@ + escape_spec(s@),
{
    let ghost before = wr@;
    assert(s@.take(0) =~= Seq::<char>::empty());
    assert(before + Seq::<char>::empty() =~= before);
    for c in it: s.chars()
        invariant
            it.seq() == s@,
            wr@ == before + escape_spec(s@.take(it.index() as int)),
    {
        proof {
            let t = s@.take(it.index() + 1);
            assert(t.drop_last() =~= s@.take(it.index() as int));
            assert(t.last() == c);
            reveal_strlit("&lt;");
            reveal_strlit("&gt;");
            reveal_strlit("&amp;");
            reveal_strlit("&quot;");
            reveal_strlit("&#39;");
            assert("&lt;"@ =~= seq!['&', 'l', 't', ';']);
            assert("&gt;"@ =~= seq!['&', 'g', 't', ';']);
            assert("&amp;"@ =~= seq!['&', 'a', 'm', 'p', ';']);
            assert("&quot;"@ =~= seq!['&', 'q', 'u', 'o', 't', ';']);
            assert("&#39;"@ =~= seq!['&', '#', '3', '9', ';']);
        }
        let ghost mid = wr@;
        if c == '<' {
            wr.append("&lt;");
        } else if c == '>' {
            wr.append("&gt;");
        } else if c == '&' {
            wr.append("&amp;");
        } else if c == '"' {
            wr.append("&quot;");
        } else if c == '\'' {
            wr.append("&#39;");
        } else {
            string_push(wr, c);
            assert(wr@ =~= mid + seq![c]);
        }
        assert(wr@ =~= before + (escape_spec(s@.take(it.index() as int)) + escape_char(c)));
    }
    assert(s@.take(s@.len() as int) =~= s@);
}

/// The value that an optional value stands for.
fn resolve_opt<'d>(value: &'d Data) -> (r: Option<&'d Data>)
    ensures
        match r {
            Some(v) => unwrap_opt(*value) == Some(*v) && !(*v is Opt),
            None => unwrap_opt(*value) is None,
        },
    decreases value,
{
    match value {
        Data::Opt(o) => match o {
            None => None,
            Some(inner) => resolve_opt(&**inner),
        },
        _ => Some(value),
    }
}

/// Looks `key` up in the innermost map of the stack that holds it.
fn find_in_stack<'d>(stack: &Vec<&'d Data>, key: &str) -> (r: Option<&'d Data>)
    ensures
        match r {
            Some(v) => find_root(stack_view(stack@), key@) == Some(*v),
            None => find_root(stack_view(stack@), key@) is None,
        },
{
    let ghost sv = stack_view(stack@);
    let mut i: usize = stack.len();
    assert(sv.take(i as int) =~= sv);
    while i > 0
        invariant
            0 <= i <= stack@.len(),
            sv == stack_view(stack@),
            find_root(sv.take(i as int), key@) == find_root(sv, key@),
        decreases i,
    {
        let ghost cur = sv.take(i as int);
        proof {
            assert(cur.last() == *stack@[i - 1]);
            assert(cur.drop_last() =~= sv.take(i - 1));
        }
        match stack[i - 1] {
            Data::Dict(m) => {
                match m.get(key) {
                    Some(v) => {
                        return Some(v);
                    },
                    None => {},
                }
            },
            _ => {},
        }
        i -= 1;
    }
    assert(sv.take(0).len() == 0);
    None
}

/// The value that `path` names in the stack.
fn find<'d>(stack: &Vec<&'d Data>, path: &Vec<String>) -> (r: Option<&'d Data>)
    ensures
        match r {
            Some(v) => find_spec(stack_view(stack@), strings_view(path@)) == Some(*v),
            None => find_spec(stack_view(stack@), strings_view(path@)) is None,
        },
{
    let ghost sv = stack_view(stack@);
    let ghost pv = strings_view(path@);
    if path.len() == 0 {
        if stack.len() == 0 {
            return None;
        } else {
            assert(sv.last() == *stack@[stack@.len() - 1]);
            return Some(stack[stack.len() - 1]);
        }
    }
    assert(pv[0] == path@[0]@);
    let mut value: &'d Data = match find_in_stack(stack, path[0].as_str()) {
        None => {
            return None;
        },
        Some(v) => v,
    };
    let mut i: usize = 1;
    while i < path.len()
        invariant
            1 <= i <= path@.len(),
            pv == strings_view(path@),
            sv == stack_view(stack@),
            find_spec(sv, pv) == walk_path(*value, pv, i as int),
        decreases path@.len() - i,
    {
        assert(pv[i as int] == path@[i as int]@);
        match value {
            Data::Dict(m) => {
                match m.get(path[i].as_str()) {
                    Some(v) => {
                        value = v;
                    },
                    None => {
                        return None;
                    },
                }
            },
            _ => {
                return None;
            },
        }
        i += 1;
    }
    Some(value)
}

/// The state of a rendering: the indent that partials have built up,
/// whether the next character written starts a line, and the calls of
/// lambdas made so far, each with the text handed over and the text
/// returned.
struct RenderContext {
    indent: String,
    line_start: bool,
    log: Vec<(String, String)>,
}

impl RenderContext {
    /// The calls of lambdas made so far.
    spec fn trace(&self) -> Seq<Call> {
        calls_of(self.log@)
    }

    /// Where the rendering stands.
    spec fn cursor(&self) -> Cursor {
        Cursor { line_start: self.line_start, used: self.trace().len() }
    }

    /// The state at the start of a rendering.
    fn new() -> (r: RenderContext)
        ensures
            r.indent@ == Seq::<char>::empty(),
            r.cursor() == Cursor::start(),
            r.trace() == Seq::<Call>::empty(),
    {
        let r = RenderContext { indent: String::new(), line_start: true, log: Vec::new() };
        assert(r.trace() =~= Seq::<Call>::empty());
        r
    }

    /// Writes `value` and notes whether it ended a line.
    fn write_tracking_newlines(&mut self, wr: &mut String, value: &str)
        ensures
            final(wr)@ == old(wr)@ + value@,
            final(self).line_start == line_start_after(value@, old(self).line_start),
            final(self).indent == old(self).indent,
            final(self).log == old(self).log,
    {
        wr.append(value);
        let n = value.unicode_len();
        if n > 0 {
            self.line_start = value.get_char(n - 1) == '\n';
        }
    }

    /// Writes `value` in one piece: the indent goes before it where a line
    /// starts, unless the text is empty or begins with a line feed.
    fn write_with_indent(&mut self, wr: &mut String, value: &str)
        ensures
            final(wr)@ == old(wr)@ + Rendered::written(
                value@,
                old(self).indent@,
                old(self).cursor(),
            ).out,
            final(self).cursor() == Rendered::written(
                value@,
                old(self).indent@,
                old(self).cursor(),
            ).at,
            final(self).indent == old(self).indent,
            final(self).log == old(self).log,
    {
        let ghost before = wr@;
        let ghost lead = indent_if(
            self.indent@,
            self.line_start && value@.len() > 0 && value@[0] != '\n',
        );
        if self.line_start && !value.is_empty() && value.get_char(0) != '\n' {
            wr.append(self.indent.as_str());
        } else {
            assert(wr@ + Seq::<char>::empty() =~= wr@);
        }
        self.write_tracking_newlines(wr, value);
        assert(wr@ =~= before + (lead + value@));
    }

    /// Writes the text `value`, with the indent before each of its lines.
    fn render_text(&mut self, wr: &mut String, value: &str)
        ensures
            final(wr)@ == old(wr)@ + indent_text(
                value@,
                old(self).indent@,
                old(self).line_start,
            ),
            final(self).line_start == line_start_after(value@, old(self).line_start),
            final(self).indent == old(self).indent,
            final(self).log == old(self).log,
    {
        let ghost before = wr@;
        let ghost ls0 = self.line_start;
        let ghost ind = self.indent@;
        assert(value@.take(0) =~= Seq::<char>::empty());
        assert(before + Seq::<char>::empty() =~= before);
        for c in it: value.chars()
            invariant
                it.seq() == value@,
                self.indent == old(self).indent,
                self.log == old(self).log,
                ind == self.indent@,
                ls0 == old(self).line_start,
                wr@ == before + indent_text(value@.take(it.index() as int), ind, ls0),
                self.line_start == line_start_after(value@.take(it.index() as int), ls0),
        {
            proof {
                let t = value@.take(it.index() + 1);
                assert(t.drop_last() =~= value@.take(it.index() as int));
                assert(t.last() == c);
            }
            if self.line_start && c != '\n' {
                wr.append(self.indent.as_str());
            }
            string_push(wr, c);
            self.line_start = c == '\n';
            assert(wr@ =~= before + (indent_text(value@.take(it.index() as int), ind, ls0)
                + indent_if(
                ind,
                line_start_after(value@.take(it.index() as int), ls0) && c != '\n',
            ) + seq![c]));
        }
        assert(value@.take(value@.len() as int) =~= value@);
    }

    /// Renders the text `answer` that a lambda returned: parses it with the
    /// delimiters `otag` and `ctag` and renders its tokens in the scope of the
    /// call, one level deeper.
    fn render_expansion<'d>(
        &mut self,
        partials: &StringHashMap<Vec<Token>>,
        wr: &mut String,
        stack: &mut Vec<&'d Data>,
        answer: &str,
        otag: &str,
        ctag: &str,
        depth: usize,
        Ghost(anchor): Ghost<Token>,
    ) -> (res: Result<(), Error>)
        ensures
            final(stack)@ == old(stack)@,
            final(self).indent@ == old(self).indent@,
            old(self).trace().is_prefix_of(final(self).trace()),
            forall|ans: Seq<Call>| #[trigger]
                extends(ans, final(self).trace()) ==> agrees(
                    render_expansion(
                        answer@,
                        otag@,
                        ctag@,
                        stack_view(old(stack)@),
                        env_of(partials@, ans),
                        old(self).indent@,
                        old(self).cursor(),
                        depth as nat,
                    ),
                    old(wr)@,
                    final(wr)@,
                    final(self).cursor(),
                    res,
                ),
        decreases depth, anchor, 0nat,
    {
        assert(wr@ + Seq::<char>::empty() =~= wr@);
        match parse_template(crate::text::to_chars(answer), otag, ctag) {
            Err(e) => Err(e),
            Ok((tokens, _)) => {
                if depth == 0 {
                    Err(Error::RecursionLimit)
                } else {
                    self.render(partials, wr, stack, &tokens, depth - 1)
                }
            },
        }
    }

    /// Renders what a lambda makes of `src`: calls the lambda and renders its
    /// answer.
    fn render_fun<'d>(
        &mut self,
        partials: &StringHashMap<Vec<Token>>,
        wr: &mut String,
        stack: &mut Vec<&'d Data>,
        src: &str,
        otag: &str,
        ctag: &str,
        f: &Lambda,
        depth: usize,
        Ghost(anchor): Ghost<Token>,
    ) -> (res: Result<(), Error>)
        ensures
            final(stack)@ == old(stack)@,
            final(self).indent@ == old(self).indent@,
            old(self).trace().is_prefix_of(final(self).trace()),
            forall|ans: Seq<Call>| #[trigger]
                extends(ans, final(self).trace()) ==> agrees(
                    render_lambda(
                        anchor@,
                        src@,
                        otag@,
                        ctag@,
                        stack_view(old(stack)@),
                        env_of(partials@, ans),
                        old(self).indent@,
                        old(self).cursor(),
                        depth as nat,
                    ),
                    old(wr)@,
                    final(wr)@,
                    final(self).cursor(),
                    res,
                ),
        decreases depth, anchor, 1nat,
    {
        let ghost t0 = self.trace();
        let answer = f.call(src.to_owned());
        let ghost t1 = t0.push(Call { asked: src@, answer: answer@ });
        self.log.push((src.to_owned(), answer.clone()));
        assert(self.trace() =~= t1);
        let res = self.render_expansion(
            partials,
            wr,
            stack,
            answer.as_str(),
            otag,
            ctag,
            depth,
            Ghost(anchor),
        );
        proof {
            assert(t0 =~= t1.subrange(0, t0.len() as int));
            lemma_extends_trans(t0, t1, self.trace());
            assert forall|ans: Seq<Call>| #[trigger]
                extends(ans, self.trace()) implies agrees(
                render_lambda(
                    anchor@,
                    src@,
                    otag@,
                    ctag@,
                    stack_view(old(stack)@),
                    env_of(partials@, ans),
                    old(self).indent@,
                    old(self).cursor(),
                    depth as nat,
                ),
                old(wr)@,
                wr@,
                self.cursor(),
                res,
            ) by {
                lemma_extends_trans(t1, self.trace(), ans);
                assert(ans.subrange(0, t1.len() as int)[t0.len() as int] == ans[t0.len() as int]);
                assert(ans[t0.len() as int] == Call { asked: src@, answer: answer@ });
            }
        }
        res
    }

    /// Renders an unescaped interpolation of `path`.
    fn render_utag<'d>(
        &mut self,
        partials: &StringHashMap<Vec<Token>>,
        wr: &mut String,
        stack: &mut Vec<&'d Data>,
        path: &Vec<String>,
        depth: usize,
        Ghost(anchor): Ghost<Token>,
    ) -> (res: Result<(), Error>)
        ensures
            final(stack)@ == old(stack)@,
            final(self).indent@ == old(self).indent@,
            old(self).trace().is_prefix_of(final(self).trace()),
            forall|ans: Seq<Call>| #[trigger]
                extends(ans, final(self).trace()) ==> agrees(
                    render_value(
                        anchor@,
                        find_spec(stack_view(old(stack)@), strings_view(path@)),
                        stack_view(old(stack)@),
                        env_of(partials@, ans),
                        old(self).indent@,
                        old(self).cursor(),
                        depth as nat,
                    ),
                    old(wr)@,
                    final(wr)@,
                    final(self).cursor(),
                    res,
                ),
        decreases depth, anchor, 2nat,
    {
        assert(wr@ + Seq::<char>::empty() =~= wr@);
        let found = find(stack, path);
        let value = match found {
            None => {
                return Ok(());
            },
            Some(v) => v,
        };
        let value = match resolve_opt(value) {
            None => {
                return Ok(());
            },
            Some(v) => v,
        };
        match value {
            Data::Str(s) => {
                self.write_with_indent(wr, s.as_str());
                Ok(())
            },
            Data::Fun(f) => {
                proof {
                    lemma_default_delimiters();
                    reveal_strlit("");
                    assert(""@ =~= Seq::<char>::empty());
                }
                self.render_fun(partials, wr, stack, "", "{{", "}}", f, depth, Ghost(anchor))
            },
            _ => Err(Error::UnsupportedType),
        }
    }

    /// Renders an escaped interpolation of `path`.
    fn render_etag<'d>(
        &mut self,
        partials: &StringHashMap<Vec<Token>>,
        wr: &mut String,
        stack: &mut Vec<&'d Data>,
        path: &Vec<String>,
        depth: usize,
        Ghost(anchor): Ghost<Token>,
    ) -> (res: Result<(), Error>)
        requires
            anchor matches Token::EscapedTag(p, _) && p == *path,
        ensures
            final(stack)@ == old(stack)@,
            final(self).indent@ == old(self).indent@,
            old(self).trace().is_prefix_of(final(self).trace()),
            forall|ans: Seq<Call>| #[trigger]
                extends(ans, final(self).trace()) ==> agrees(
                    render_token(
                        anchor@,
                        stack_view(old(stack)@),
                        env_of(partials@, ans),
                        old(self).indent@,
                        old(self).cursor(),
                        depth as nat,
                    ),
                    old(wr)@,
                    final(wr)@,
                    final(self).cursor(),
                    res,
                ),
        decreases depth, anchor, 5nat,
    {
        let mut unescaped = String::new();
        assert(wr@ + Seq::<char>::empty() =~= wr@);
        match self.render_utag(partials, &mut unescaped, stack, path, depth, Ghost(anchor)) {
            Err(e) => Err(e),
            Ok(()) => {
                assert(Seq::<char>::empty() + unescaped@ =~= unescaped@);
                escape_into(wr, unescaped.as_str());
                proof {
                    assert forall|ans: Seq<Call>| #[trigger]
                        extends(ans, self.trace()) implies agrees(
                        render_token(
                            anchor@,
                            stack_view(old(stack)@),
                            env_of(partials@, ans),
                            old(self).indent@,
                            old(self).cursor(),
                            depth as nat,
                        ),
                        old(wr)@,
                        wr@,
                        self.cursor(),
                        Ok::<(), Error>(()),
                    ) by {
                        let r = render_value(
                            anchor@,
                            find_spec(stack_view(old(stack)@), strings_view(path@)),
                            stack_view(old(stack)@),
                            env_of(partials@, ans),
                            old(self).indent@,
                            old(self).cursor(),
                            depth as nat,
                        );
                        assert(unescaped@ =~= r.out);
                    }
                }
                Ok(())
            },
        }
    }

    /// Renders the partial `name`, with `indent` added to the indent.
    fn render_partial<'d>(
        &mut self,
        partials: &StringHashMap<Vec<Token>>,
        wr: &mut String,
        stack: &mut Vec<&'d Data>,
        name: &str,
        indent: &str,
        depth: usize,
        Ghost(anchor): Ghost<Token>,
    ) -> (res: Result<(), Error>)
        requires
            anchor@ is Partial,
            anchor@->Partial_0 == name@,
            anchor@->Partial_1 == indent@,
        ensures
            final(stack)@ == old(stack)@,
            final(self).indent@ == old(self).indent@,
            old(self).trace().is_prefix_of(final(self).trace()),
            forall|ans: Seq<Call>| #[trigger]
                extends(ans, final(self).trace()) ==> agrees(
                    render_token(
                        anchor@,
                        stack_view(old(stack)@),
                        env_of(partials@, ans),
                        old(self).indent@,
                        old(self).cursor(),
                        depth as nat,
                    ),
                    old(wr)@,
                    final(wr)@,
                    final(self).cursor(),
                    res,
                ),
        decreases depth, anchor, 5nat,
    {
        assert(wr@ + Seq::<char>::empty() =~= wr@);
        match partials.get(name) {
            None => Ok(()),
            Some(tokens) => {
                if depth == 0 {
                    return Err(Error::RecursionLimit);
                }
                let saved = self.indent.clone();
                self.indent.append(indent);
                let res = self.render(partials, wr, stack, tokens, depth - 1);
                self.indent = saved;
                res
            },
        }
    }

    /// Renders an inverted section.
    fn render_inverted_section<'d>(
        &mut self,
        partials: &StringHashMap<Vec<Token>>,
        wr: &mut String,
        stack: &mut Vec<&'d Data>,
        path: &Vec<String>,
        children: &Vec<Token>,
        depth: usize,
        Ghost(anchor): Ghost<Token>,
    ) -> (res: Result<(), Error>)
        requires
            anchor matches Token::Section(p, inverted, c, _, _, _, _, _) && inverted && p
                == *path && c == *children,
        ensures
            final(stack)@ == old(stack)@,
            final(self).indent@ == old(self).indent@,
            old(self).trace().is_prefix_of(final(self).trace()),
            forall|ans: Seq<Call>| #[trigger]
                extends(ans, final(self).trace()) ==> agrees(
                    render_token(
                        anchor@,
                        stack_view(old(stack)@),
                        env_of(partials@, ans),
                        old(self).indent@,
                        old(self).cursor(),
                        depth as nat,
                    ),
                    old(wr)@,
                    final(wr)@,
                    final(self).cursor(),
                    res,
                ),
        decreases depth, anchor, 5nat,
    {
        assert(wr@ + Seq::<char>::empty() =~= wr@);
        proof {
            lemma_section_children(anchor);
        }
        match find(stack, path) {
            None => {},
            Some(value) => {
                match value {
                    Data::Bool(b) => {
                        if *b {
                            return Ok(());
                        }
                    },
                    Data::Vec(xs) => {
                        if xs.len() != 0 {
                            return Ok(());
                        }
                    },
                    Data::Opt(o) => {
                        if o.is_some() {
                            return Ok(());
                        }
                    },
                    _ => {
                        return Ok(());
                    },
                }
            },
        }
        self.render(partials, wr, stack, children, depth)
    }

    /// Renders the children of a section with `value` pushed on the stack.
    fn render_pushed<'d>(
        &mut self,
        partials: &StringHashMap<Vec<Token>>,
        wr: &mut String,
        stack: &mut Vec<&'d Data>,
        value: &'d Data,
        children: &Vec<Token>,
        depth: usize,
    ) -> (res: Result<(), Error>)
        ensures
            final(stack)@ == old(stack)@,
            final(self).indent@ == old(self).indent@,
            old(self).trace().is_prefix_of(final(self).trace()),
            forall|ans: Seq<Call>| #[trigger]
                extends(ans, final(self).trace()) ==> agrees(
                    render_tokens(
                        tokens_view(children@),
                        stack_view(old(stack)@).push(*value),
                        env_of(partials@, ans),
                        old(self).indent@,
                        old(self).cursor(),
                        depth as nat,
                    ),
                    old(wr)@,
                    final(wr)@,
                    final(self).cursor(),
                    res,
                ),
        decreases depth, children, 1nat,
    {
        stack.push(value);
        assert(stack_view(stack@) =~= stack_view(old(stack)@).push(*value));
        let res = self.render(partials, wr, stack, children, depth);
        stack.pop();
        assert(stack@ =~= old(stack)@);
        res
    }

    /// Renders the children of a section once for each of `items`.
    fn render_each<'d>(
        &mut self,
        partials: &StringHashMap<Vec<Token>>,
        wr: &mut String,
        stack: &mut Vec<&'d Data>,
        items: &'d Vec<Data>,
        children: &Vec<Token>,
        depth: usize,
    ) -> (res: Result<(), Error>)
        ensures
            final(stack)@ == old(stack)@,
            final(self).indent@ == old(self).indent@,
            old(self).trace().is_prefix_of(final(self).trace()),
            forall|ans: Seq<Call>| #[trigger]
                extends(ans, final(self).trace()) ==> agrees(
                    render_items(
                        tokens_view(children@),
                        items@,
                        items@.len(),
                        stack_view(old(stack)@),
                        env_of(partials@, ans),
                        old(self).indent@,
                        old(self).cursor(),
                        depth as nat,
                    ),
                    old(wr)@,
                    final(wr)@,
                    final(self).cursor(),
                    res,
                ),
        decreases depth, children, 2nat,
    {
        let ghost sv = stack_view(stack@);
        let ghost cv = tokens_view(children@);
        let ghost ind = self.indent@;
        let ghost c0 = self.cursor();
        let ghost before = wr@;
        let ghost d = depth as nat;
        assert(before + Seq::<char>::empty() =~= before);
        let mut i: usize = 0;
        while i < items.len()
            invariant
                0 <= i <= items@.len(),
                sv == stack_view(stack@),
                stack@ == old(stack)@,
                cv == tokens_view(children@),
                ind == self.indent@,
                ind == old(self).indent@,
                c0 == old(self).cursor(),
                before == old(wr)@,
                d == depth as nat,
                old(self).trace().is_prefix_of(self.trace()),
                forall|ans: Seq<Call>| #[trigger]
                    extends(ans, self.trace()) ==> {
                        let r = render_items(
                            cv,
                            items@,
                            i as nat,
                            sv,
                            env_of(partials@, ans),
                            ind,
                            c0,
                            d,
                        );
                        r.end is Done && wr@ == before + r.out && self.cursor() == r.at
                    },
            decreases items@.len() - i,
        {
            let ghost t_mid = self.trace();
            let ghost c_mid = self.cursor();
            let res = self.render_pushed(partials, wr, stack, &items[i], children, depth);
            proof {
                lemma_extends_trans(old(self).trace(), t_mid, self.trace());
                assert forall|ans: Seq<Call>| #[trigger]
                    extends(ans, self.trace()) implies {
                    let r1 = render_items(
                        cv,
                        items@,
                        (i + 1) as nat,
                        sv,
                        env_of(partials@, ans),
                        ind,
                        c0,
                        d,
                    );
                    let whole = render_items(
                        cv,
                        items@,
                        items@.len(),
                        sv,
                        env_of(partials@, ans),
                        ind,
                        c0,
                        d,
                    );
                    &&& agrees(r1, before, wr@, self.cursor(), res)
                    &&& !(r1.end is Done) ==> whole == r1
                } by {
                    lemma_extends_trans(t_mid, self.trace(), ans);
                    assert(extends(ans, t_mid));
                    let e = env_of(partials@, ans);
                    let r0 = render_items(cv, items@, i as nat, sv, e, ind, c0, d);
                    let r1 = render_items(cv, items@, (i + 1) as nat, sv, e, ind, c0, d);
                    let rt = render_tokens(cv, sv.push(items@[i as int]), e, ind, c_mid, d);
                    assert(r1 == r0.followed_by(rt));
                    assert(before + r0.out + rt.out =~= before + (r0.out + rt.out));
                    if !(r1.end is Done) {
                        lemma_items_stuck(cv, items@, (i + 1) as nat, items@.len(), sv, e, ind, c0, d);
                    }
                }
            }
            match res {
                Err(e) => {
                    return Err(e);
                },
                Ok(()) => {},
            }
            i += 1;
        }
        Ok(())
    }

    /// Renders a section.
    fn render_section<'d>(
        &mut self,
        partials: &StringHashMap<Vec<Token>>,
        wr: &mut String,
        stack: &mut Vec<&'d Data>,
        path: &Vec<String>,
        children: &Vec<Token>,
        src: &str,
        otag: &str,
        ctag: &str,
        depth: usize,
        Ghost(anchor): Ghost<Token>,
    ) -> (res: Result<(), Error>)
        requires
            anchor matches Token::Section(p, inverted, c, o, _, inner, _, ct) && !inverted && p
                == *path && c == *children && o@ == otag@ && inner@ == src@ && ct@ == ctag@,
        ensures
            final(stack)@ == old(stack)@,
            final(self).indent@ == old(self).indent@,
            old(self).trace().is_prefix_of(final(self).trace()),
            forall|ans: Seq<Call>| #[trigger]
                extends(ans, final(self).trace()) ==> agrees(
                    render_token(
                        anchor@,
                        stack_view(old(stack)@),
                        env_of(partials@, ans),
                        old(self).indent@,
                        old(self).cursor(),
                        depth as nat,
                    ),
                    old(wr)@,
                    final(wr)@,
                    final(self).cursor(),
                    res,
                ),
        decreases depth, anchor, 5nat,
    {
        assert(wr@ + Seq::<char>::empty() =~= wr@);
        proof {
            lemma_section_children(anchor);
        }
        match find(stack, path) {
            None => Ok(()),
            Some(value) => {
                match value {
                    Data::Bool(b) => {
                        if *b {
                            self.render(partials, wr, stack, children, depth)
                        } else {
                            Ok(())
                        }
                    },
                    Data::Vec(items) => self.render_each(
                        partials,
                        wr,
                        stack,
                        items,
                        children,
                        depth,
                    ),
                    Data::Dict(_) => self.render_pushed(
                        partials,
                        wr,
                        stack,
                        value,
                        children,
                        depth,
                    ),
                    Data::Fun(f) => self.render_fun(
                        partials,
                        wr,
                        stack,
                        src,
                        otag,
                        ctag,
                        f,
                        depth,
                        Ghost(anchor),
                    ),
                    Data::Opt(o) => {
                        match o {
                            None => Ok(()),
                            Some(inner) => self.render_pushed(
                                partials,
                                wr,
                                stack,
                                &**inner,
                                children,
                                depth,
                            ),
                        }
                    },
                    Data::Str(s) => {
                        if !s.as_str().is_empty() {
                            self.render_pushed(partials, wr, stack, value, children, depth)
                        } else {
                            Ok(())
                        }
                    },
                }
            },
        }
    }

    /// Renders one token.
    fn render_token<'d>(
        &mut self,
        partials: &StringHashMap<Vec<Token>>,
        wr: &mut String,
        stack: &mut Vec<&'d Data>,
        token: &Token,
        depth: usize,
    ) -> (res: Result<(), Error>)
        ensures
            final(stack)@ == old(stack)@,
            final(self).indent@ == old(self).indent@,
            old(self).trace().is_prefix_of(final(self).trace()),
            forall|ans: Seq<Call>| #[trigger]
                extends(ans, final(self).trace()) ==> agrees(
                    render_token(
                        token@,
                        stack_view(old(stack)@),
                        env_of(partials@, ans),
                        old(self).indent@,
                        old(self).cursor(),
                        depth as nat,
                    ),
                    old(wr)@,
                    final(wr)@,
                    final(self).cursor(),
                    res,
                ),
        decreases depth, token, 10nat,
    {
        assert(wr@ + Seq::<char>::empty() =~= wr@);
        match token {
            Token::Text(value) => {
                self.render_text(wr, value.as_str());
                Ok(())
            },
            Token::EscapedTag(path, _) => {
                self.render_etag(partials, wr, stack, path, depth, Ghost(*token))
            },
            Token::UnescapedTag(path, _) => {
                self.render_utag(partials, wr, stack, path, depth, Ghost(*token))
            },
            Token::Section(path, inverted, children, otag, _, src, _, ctag) => {
                if *inverted {
                    self.render_inverted_section(
                        partials,
                        wr,
                        stack,
                        path,
                        children,
                        depth,
                        Ghost(*token),
                    )
                } else {
                    self.render_section(
                        partials,
                        wr,
                        stack,
                        path,
                        children,
                        src.as_str(),
                        otag.as_str(),
                        ctag.as_str(),
                        depth,
                        Ghost(*token),
                    )
                }
            },
            Token::Partial(name, indent, _) => {
                self.render_partial(
                    partials,
                    wr,
                    stack,
                    name.as_str(),
                    indent.as_str(),
                    depth,
                    Ghost(*token),
                )
            },
            Token::IncompleteSection(_, _, _, _) => Err(Error::UnclosedSection),
        }
    }

    /// Renders the tokens, one after the other.
    fn render<'d>(
        &mut self,
        partials: &StringHashMap<Vec<Token>>,
        wr: &mut String,
        stack: &mut Vec<&'d Data>,
        tokens: &Vec<Token>,
        depth: usize,
    ) -> (res: Result<(), Error>)
        ensures
            final(stack)@ == old(stack)@,
            final(self).indent@ == old(self).indent@,
            old(self).trace().is_prefix_of(final(self).trace()),
            forall|ans: Seq<Call>| #[trigger]
                extends(ans, final(self).trace()) ==> agrees(
                    render_tokens(
                        tokens_view(tokens@),
                        stack_view(old(stack)@),
                        env_of(partials@, ans),
                        old(self).indent@,
                        old(self).cursor(),
                        depth as nat,
                    ),
                    old(wr)@,
                    final(wr)@,
                    final(self).cursor(),
                    res,
                ),
        decreases depth, tokens, 0nat,
    {
        let ghost tv = tokens_view(tokens@);
        let ghost sv = stack_view(stack@);
        let ghost ind = self.indent@;
        let ghost c0 = self.cursor();
        let ghost before = wr@;
        let ghost d = depth as nat;
        assert(tv.take(0) =~= Seq::<TokenView>::empty());
        assert(before + Seq::<char>::empty() =~= before);
        let mut i: usize = 0;
        while i < tokens.len()
            invariant
                0 <= i <= tokens@.len(),
                tv == tokens_view(tokens@),
                sv == stack_view(stack@),
                stack@ == old(stack)@,
                ind == self.indent@,
                ind == old(self).indent@,
                c0 == old(self).cursor(),
                before == old(wr)@,
                d == depth as nat,
                old(self).trace().is_prefix_of(self.trace()),
                forall|ans: Seq<Call>| #[trigger]
                    extends(ans, self.trace()) ==> {
                        let r = render_tokens(
                            tv.take(i as int),
                            sv,
                            env_of(partials@, ans),
                            ind,
                            c0,
                            d,
                        );
                        r.end is Done && wr@ == before + r.out && self.cursor() == r.at
                    },
            decreases tokens@.len() - i,
        {
            let ghost t_mid = self.trace();
            let ghost c_mid = self.cursor();
            let res = self.render_token(partials, wr, stack, &tokens[i], depth);
            proof {
                lemma_extends_trans(old(self).trace(), t_mid, self.trace());
                assert(tv.take(i + 1).drop_last() =~= tv.take(i as int));
                assert(tv.take(i + 1).last() == tv[i as int]);
                assert forall|ans: Seq<Call>| #[trigger]
                    extends(ans, self.trace()) implies {
                    let r1 = render_tokens(tv.take(i + 1), sv, env_of(partials@, ans), ind, c0, d);
                    let whole = render_tokens(tv, sv, env_of(partials@, ans), ind, c0, d);
                    &&& agrees(r1, before, wr@, self.cursor(), res)
                    &&& !(r1.end is Done) ==> whole == r1
                } by {
                    lemma_extends_trans(t_mid, self.trace(), ans);
                    assert(extends(ans, t_mid));
                    let e = env_of(partials@, ans);
                    let r0 = render_tokens(tv.take(i as int), sv, e, ind, c0, d);
                    let r1 = render_tokens(tv.take(i + 1), sv, e, ind, c0, d);
                    let rt = render_token(tv[i as int], sv, e, ind, c_mid, d);
                    assert(r1 == r0.followed_by(rt));
                    assert(before + r0.out + rt.out =~= before + (r0.out + rt.out));
                    if !(r1.end is Done) {
                        lemma_render_stuck(tv, i + 1, sv, e, ind, c0, d);
                    }
                }
            }
            match res {
                Err(e) => {
                    return Err(e);
                },
                Ok(()) => {},
            }
            i += 1;
        }
        assert(tv.take(tokens@.len() as int) =~= tv);
        Ok(())
    }
}

impl View for Template {
    type V = TemplateView;

    closed spec fn view(&self) -> TemplateView {
        TemplateView {
            tokens: tokens_view(self.tokens@),
            partials: partials_view(self.partials@),
        }
    }
}

impl Template {
    /// A template of the given tokens and partials.
    pub fn new(ctx: Context, tokens: Vec<Token>, partials: PartialMap) -> (t:
        Template)
        ensures
            t@.tokens == tokens_view(tokens@),
            t@.partials == partials_view(partials@),
            t.context() == ctx,
    {
        Template { ctx, tokens, partials }
    }

    /// The context that the template was compiled in.
    pub closed spec fn context(&self) -> Context {
        self.ctx
    }

    /// The tokens of the template.
    pub fn tokens(&self) -> (t: &Vec<Token>)
        ensures
            tokens_view(t@) == self@.tokens,
    {
        &self.tokens
    }

    /// The tokens of the partial `name`, if the template has it.
    pub fn partial(&self, name: &str) -> (p: Option<&Vec<Token>>)
        ensures
            match p {
                Some(t) => self@.partials.contains_key(name@) && self@.partials[name@]
                    == tokens_view(t@),
                None => !self@.partials.contains_key(name@),
            },
    {
        self.partials.get(name)
    }

    /// Renders the template against `data` and appends the result to `wr`.
    ///
    /// There are calls of lambdas, each with the text handed over and the text
    /// returned, in the order in which they were made and none besides, for
    /// which the text appended is that of [`render_template`]. Against data
    /// that holds no callable there is no call. An error stops the rendering;
    /// what was rendered before it stays in `wr`.
    pub fn render_data(&self, wr: &mut String, data: &Data) -> (res: Result<(), Error>)
        ensures
            exists|calls: Seq<Call>|
                rendered_as(
                    #[trigger] render_template(self@, *data, calls),
                    old(wr)@,
                    final(wr)@,
                    res,
                ) && render_template(self@, *data, calls).at.used == calls.len(),
            fun_free(*data) ==> rendered_as(
                render_template(self@, *data, Seq::empty()),
                old(wr)@,
                final(wr)@,
                res,
            ),
    {
        let mut ctx = RenderContext::new();
        let mut stack: Vec<&Data> = Vec::new();
        stack.push(data);
        assert(stack_view(stack@) =~= seq![*data]);
        let res = ctx.render(&self.partials, wr, &mut stack, &self.tokens, MAX_DEPTH);
        proof {
            let calls = ctx.trace();
            assert(calls =~= calls.subrange(0, calls.len() as int));
            assert(extends(calls, ctx.trace()));
            let r = render_template(self@, *data, calls);
            assert(rendered_as(r, old(wr)@, wr@, res) && r.at.used == calls.len());
            if fun_free(*data) {
                crate::laws::law_render_template_without_lambdas(self@, *data, calls);
            }
        }
        res
    }

    /// Renders the template against the stack `stack`, whose last value is
    /// the one that names are looked up in first, with `indent` before each
    /// line, following partials and the answers of lambdas `depth` levels
    /// deep, and appends the result to `wr`. Returns with the result the calls
    /// of lambdas that were made, in order: for each the text handed over and
    /// the text returned. The text appended is that of [`render_tokens`] for
    /// these calls, and there was no other call.
    pub fn render_stack(
        &self,
        wr: &mut String,
        stack: Vec<&Data>,
        indent: &str,
        depth: usize,
    ) -> (r: (Result<(), Error>, Vec<(String, String)>))
        ensures
            rendered_as(
                render_tokens(
                    self@.tokens,
                    stack_view(stack@),
                    Env { partials: self@.partials, calls: calls_of(r.1@) },
                    indent@,
                    Cursor::start(),
                    depth as nat,
                ),
                old(wr)@,
                final(wr)@,
                r.0,
            ),
            render_tokens(
                self@.tokens,
                stack_view(stack@),
                Env { partials: self@.partials, calls: calls_of(r.1@) },
                indent@,
                Cursor::start(),
                depth as nat,
            ).at.used == r.1@.len(),
    {
        let mut ctx = RenderContext { indent: indent.to_owned(), line_start: true, log: Vec::new() };
        assert(ctx.trace() =~= Seq::<Call>::empty());
        let mut frames = stack;
        let res = ctx.render(&self.partials, wr, &mut frames, &self.tokens, depth);
        proof {
            let calls = ctx.trace();
            assert(calls =~= calls.subrange(0, calls.len() as int));
            assert(extends(calls, ctx.trace()));
        }
        (res, ctx.log)
    }

    /// Renders the text `answer`, as a lambda may have returned it, against
    /// `data`: parses it with the delimiters `otag` and `ctag`, and renders
    /// its tokens with this template's partials.
    pub fn render_expansion(
        &self,
        wr: &mut String,
        data: &Data,
        answer: &str,
        otag: &str,
        ctag: &str,
    ) -> (res: Result<(), Error>)
        ensures
            exists|calls: Seq<Call>|
                rendered_as(
                    #[trigger] render_expansion(
                        answer@,
                        otag@,
                        ctag@,
                        seq![*data],
                        Env { partials: self@.partials, calls },
                        Seq::empty(),
                        Cursor::start(),
                        MAX_DEPTH as nat,
                    ),
                    old(wr)@,
                    final(wr)@,
                    res,
                ) && render_expansion(
                    answer@,
                    otag@,
                    ctag@,
                    seq![*data],
                    Env { partials: self@.partials, calls },
                    Seq::empty(),
                    Cursor::start(),
                    MAX_DEPTH as nat,
                ).at.used == calls.len(),
    {
        let mut ctx = RenderContext::new();
        let mut stack: Vec<&Data> = Vec::new();
        stack.push(data);
        assert(stack_view(stack@) =~= seq![*data]);
        let res = ctx.render_expansion(
            &self.partials,
            wr,
            &mut stack,
            answer,
            otag,
            ctag,
            MAX_DEPTH,
            Ghost(vstd::pervasive::arbitrary::<Token>()),
        );
        proof {
            let calls = ctx.trace();
            assert(calls =~= calls.subrange(0, calls.len() as int));
            assert(extends(calls, ctx.trace()));
            let r = render_expansion(
                answer@,
                otag@,
                ctag@,
                seq![*data],
                Env { partials: self@.partials, calls },
                Seq::empty(),
                Cursor::start(),
                MAX_DEPTH as nat,
            );
            assert(rendered_as(r, old(wr)@, wr@, res) && r.at.used == calls.len());
        }
        res
    }
}

} // verus!
