//! Compiling: parsing a template and gathering the partials it refers to.
//!
//! Loading a partial is the caller's work. A [`Compiler`] says which partial
//! it needs next and takes the source that the caller found for it; so the
//! caller alternates `next_partial` and `supply` until nothing is needed.

use vstd::prelude::*;
use vstd::string::*;
use vstd::hash_map::StringHashMap;
use crate::context::Context;
use crate::error::Error;
use crate::parser::parse_template;
use crate::parser_model::{default_ctag, default_otag, lemma_default_delimiters, parse_spec};
use crate::template::{partials_view, Template, TemplateView};
use crate::text::{strings_view, to_chars};
use crate::token::{tokens_view, Token, TokenView};

verus! {

/// A compilation under way: the tokens of the template, the partials
/// compiled so far, and the names of the partials still to be looked at.
pub struct Compiler {
    ctx: Context,
    tokens: Vec<Token>,
    partials: StringHashMap<Vec<Token>>,
    pending: Vec<String>,
}

/// The mathematical value of a [`Compiler`]. The last name of `pending` is
/// the one looked at next.
pub struct CompilerView {
    pub tokens: Seq<TokenView>,
    pub partials: Map<Seq<char>, Seq<TokenView>>,
    pub pending: Seq<Seq<char>>,
}

impl CompilerView {
    /// The state after the next partial to load has been picked, and its
    /// name: names whose partial is already there are passed over, and the
    /// partial picked is entered as empty, so that a partial that includes
    /// itself is not loaded again.
    pub open spec fn next(self) -> (CompilerView, Option<Seq<char>>)
        decreases self.pending.len(),
    {
        if self.pending.len() == 0 {
            (self, None)
        } else {
            let name = self.pending.last();
            let rest = CompilerView { pending: self.pending.drop_last(), ..self };
            if self.partials.contains_key(name) {
                rest.next()
            } else {
                (
                    CompilerView { partials: rest.partials.insert(name, Seq::empty()), ..rest },
                    Some(name),
                )
            }
        }
    }

    /// The state after the source of the partial `name` was supplied: a
    /// partial that was not found changes nothing; one that was found is
    /// parsed with the default delimiters, and the partials it refers to are
    /// looked at next, in their order.
    pub open spec fn supply(self, name: Seq<char>, source: Option<Seq<char>>) -> Result<
        CompilerView,
        Error,
    > {
        match source {
            None => Ok(self),
            Some(src) => match parse_spec(src, default_otag(), default_ctag()) {
                Err(e) => Err(e),
                Ok((tokens, names)) => Ok(
                    CompilerView {
                        partials: self.partials.insert(name, tokens),
                        pending: self.pending + names.reverse(),
                        ..self
                    },
                ),
            },
        }
    }
}

/// The partial map in which each of `names` stands for an empty partial.
pub open spec fn placeholders(names: Seq<Seq<char>>) -> Map<Seq<char>, Seq<TokenView>> {
    Map::new(|k: Seq<char>| names.contains(k), |k: Seq<char>| Seq::<TokenView>::empty())
}

/// What a template compiles to when none of its partials is supplied: its
/// tokens, and an empty partial for each name it refers to.
pub open spec fn compile_spec(src: Seq<char>) -> Result<TemplateView, Error> {
    match parse_spec(src, default_otag(), default_ctag()) {
        Err(e) => Err(e),
        Ok((tokens, names)) => Ok(TemplateView { tokens, partials: placeholders(names) }),
    }
}

/// Appends `names` to `pending`, last name first.
fn push_reversed(pending: &mut Vec<String>, names: Vec<String>)
    ensures
        strings_view(final(pending)@) == strings_view(old(pending)@) + strings_view(
            names@,
        ).reverse(),
{
    let mut names = names;
    let ghost all = strings_view(names@);
    let ghost before = strings_view(pending@);
    assert(before + all.skip(all.len() as int).reverse() =~= before);
    while names.len() > 0
        invariant
            names@.len() <= all.len(),
            strings_view(names@) == all.take(names@.len() as int),
            strings_view(pending@) == before + all.skip(names@.len() as int).reverse(),
        decreases names@.len(),
    {
        let ghost n = names@.len();
        let ghost pv = strings_view(pending@);
        let ghost nv = strings_view(names@);
        let name = names.pop().unwrap();
        assert(name@ == all[n - 1]) by {
            assert(nv[n - 1] == name@);
            assert(all.take(n as int)[n - 1] == all[n - 1]);
        }
        pending.push(name);
        assert(strings_view(names@) =~= all.take(n - 1));
        assert(strings_view(pending@) =~= pv.push(name@));
        assert(all.skip(n - 1).reverse() =~= all.skip(n as int).reverse().push(all[n - 1]));
        assert(strings_view(pending@) =~= before + all.skip(n - 1).reverse());
    }
    assert(all.skip(0) =~= all);
}

impl View for Compiler {
    type V = CompilerView;

    closed spec fn view(&self) -> CompilerView {
        CompilerView {
            tokens: tokens_view(self.tokens@),
            partials: partials_view(self.partials@),
            pending: strings_view(self.pending@),
        }
    }
}

impl Compiler {
    /// The context that the compilation was started in; the template that
    /// comes of it keeps it.
    pub closed spec fn context(&self) -> Context {
        self.ctx
    }

    /// Starts the compilation of `template`, read with the default delimiters.
    pub fn new(ctx: Context, template: Vec<char>) -> (r: Result<Compiler, Error>)
        ensures
            match parse_spec(template@, default_otag(), default_ctag()) {
                Err(e) => r matches Err(x) && x == e,
                Ok((tokens, names)) => r matches Ok(c) && c@ == CompilerView {
                    tokens,
                    partials: Map::empty(),
                    pending: names.reverse(),
                } && c.context() == ctx,
            },
    {
        proof {
            lemma_default_delimiters();
        }
        let partials = StringHashMap::<Vec<Token>>::new();
        assert(partials_view(partials@) =~= Map::<Seq<char>, Seq<TokenView>>::empty());
        Self::new_with(ctx, template, partials, "{{", "}}")
    }

    /// Starts the compilation of `template`, read with the delimiters `otag`
    /// and `ctag`, with the partials in `partials` already compiled.
    pub fn new_with(
        ctx: Context,
        template: Vec<char>,
        partials: StringHashMap<Vec<Token>>,
        otag: &str,
        ctag: &str,
    ) -> (r: Result<Compiler, Error>)
        ensures
            match parse_spec(template@, otag@, ctag@) {
                Err(e) => r matches Err(x) && x == e,
                Ok((tokens, names)) => r matches Ok(c) && c@ == CompilerView {
                    tokens,
                    partials: partials_view(partials@),
                    pending: names.reverse(),
                } && c.context() == ctx,
            },
    {
        match parse_template(template, otag, ctag) {
            Err(e) => Err(e),
            Ok((tokens, names)) => {
                let mut pending: Vec<String> = Vec::new();
                assert(strings_view(pending@) =~= Seq::<Seq<char>>::empty());
                push_reversed(&mut pending, names);
                assert(Seq::<Seq<char>>::empty() + strings_view(names@).reverse() =~= strings_view(
                    names@,
                ).reverse());
                Ok(Compiler { ctx, tokens, partials, pending })
            },
        }
    }

    /// The name of the partial to load next, if any is left; the partial is
    /// entered as empty until its source is supplied.
    pub fn next_partial(&mut self) -> (r: Option<String>)
        ensures
            final(self)@ == old(self)@.next().0,
            final(self).context() == old(self).context(),
            match r {
                Some(name) => old(self)@.next().1 == Some(name@),
                None => old(self)@.next().1 is None,
            },
    {
        while self.pending.len() > 0
            invariant
                self@.next() == old(self)@.next(),
                self.ctx == old(self).ctx,
            decreases self.pending@.len(),
        {
            let ghost pv = strings_view(self.pending@);
            let name = self.pending.pop().unwrap();
            assert(name@ == pv.last());
            assert(strings_view(self.pending@) =~= pv.drop_last());
            if !self.partials.contains_key(name.as_str()) {
                let ghost old_partials = partials_view(self.partials@);
                let placeholder: Vec<Token> = Vec::new();
                assert(tokens_view(placeholder@) =~= Seq::<TokenView>::empty());
                self.partials.insert(name.clone(), placeholder);
                assert(partials_view(self.partials@) =~= old_partials.insert(
                    name@,
                    Seq::<TokenView>::empty(),
                ));
                return Some(name);
            }
        }
        assert(strings_view(self.pending@).len() == 0);
        None
    }

    /// Takes the source of the partial `name`, or `None` where the partial
    /// was not found: a partial that was found is compiled, and the partials
    /// it refers to are looked at next.
    pub fn supply(&mut self, name: &str, source: Option<&str>) -> (r: Result<(), Error>)
        ensures
            match old(self)@.supply(
                name@,
                match source {
                    Some(s) => Some(s@),
                    None => None,
                },
            ) {
                Ok(v) => r is Ok && final(self)@ == v,
                Err(e) => r == Err::<(), Error>(e) && final(self)@ == old(self)@,
            },
            final(self).context() == old(self).context(),
    {
        proof {
            lemma_default_delimiters();
        }
        match source {
            None => Ok(()),
            Some(src) => {
                match parse_template(to_chars(src), "{{", "}}") {
                    Err(e) => Err(e),
                    Ok((tokens, names)) => {
                        let ghost old_partials = partials_view(self.partials@);
                        self.partials.insert(name.to_owned(), tokens);
                        assert(partials_view(self.partials@) =~= old_partials.insert(
                            name@,
                            tokens_view(tokens@),
                        ));
                        push_reversed(&mut self.pending, names);
                        Ok(())
                    },
                }
            },
        }
    }

    /// The template compiled so far; partials that were not supplied stay
    /// empty or missing.
    pub fn finish(self) -> (t: Template)
        ensures
            t@.tokens == self@.tokens,
            t@.partials == self@.partials,
            t.context() == self.context(),
    {
        Template::new(self.ctx, self.tokens, self.partials)
    }
}

/// Compiles `template` without loading any partial: each partial it refers
/// to is entered as empty. The template's context is that of the current
/// directory.
pub fn compile_chars(template: Vec<char>) -> (r: Result<Template, Error>)
    ensures
        match compile_spec(template@) {
            Err(e) => r matches Err(x) && x == e,
            Ok(v) => r matches Ok(t) && t@ == v && t.context().template_path@ == "."@
                && t.context().template_extension@ == "mustache"@,
        },
{
    proof {
        lemma_default_delimiters();
    }
    match parse_template(template, "{{", "}}") {
        Err(e) => Err(e),
        Ok((tokens, names)) => {
            let mut partials = StringHashMap::<Vec<Token>>::new();
            let ghost nv = strings_view(names@);
            let mut i: usize = 0;
            assert(partials_view(partials@) =~= placeholders(nv.take(0)));
            while i < names.len()
                invariant
                    0 <= i <= names@.len(),
                    nv == strings_view(names@),
                    partials_view(partials@) == placeholders(nv.take(i as int)),
                decreases names@.len() - i,
            {
                let ghost before = partials_view(partials@);
                let placeholder: Vec<Token> = Vec::new();
                assert(tokens_view(placeholder@) =~= Seq::<TokenView>::empty());
                partials.insert(names[i].clone(), placeholder);
                proof {
                    let now = partials_view(partials@);
                    let want = placeholders(nv.take(i + 1));
                    assert(nv.take(i + 1) =~= nv.take(i as int).push(nv[i as int]));
                    let t0 = nv.take(i as int);
                    let t1 = nv.take(i + 1);
                    assert(nv[i as int] == names@[i as int]@);
                    assert(forall|k: Seq<char>| before.contains_key(k) == t0.contains(k));
                    assert(forall|k: Seq<char>|
                        now.contains_key(k) == (before.contains_key(k) || k == nv[i as int]));
                    assert(forall|k: Seq<char>| want.contains_key(k) == t1.contains(k));
                    assert forall|k: Seq<char>| now.contains_key(k) == want.contains_key(k) by {
                        if t0.contains(k) {
                            let j = choose|j: int| 0 <= j < t0.len() && #[trigger] t0[j] == k;
                            assert(t1[j] == k);
                        }
                        if k == nv[i as int] {
                            assert(t1[i as int] == k);
                        }
                        if t1.contains(k) {
                            let j = choose|j: int| 0 <= j < t1.len() && #[trigger] t1[j] == k;
                            if j < i {
                                assert(t0[j] == k);
                            }
                        }
                    }
                    assert forall|k: Seq<char>| now.contains_key(k) implies now[k]
                        == Seq::<TokenView>::empty() by {
                        if k != nv[i as int] {
                            assert(before.contains_key(k));
                            assert(now[k] == before[k]);
                        }
                    }
                    assert(now =~= want);
                }
                i += 1;
            }
            assert(nv.take(names@.len() as int) =~= nv);
            let t = Template::new(Context::new(".".to_owned()), tokens, partials);
            Ok(t)
        },
    }
}

/// Compiles `template` without loading any partial, in the context of the
/// current directory.
pub fn compile_str(template: &str) -> (r: Result<Template, Error>)
    ensures
        match compile_spec(template@) {
            Err(e) => r matches Err(x) && x == e,
            Ok(v) => r matches Ok(t) && t@ == v && t.context().template_path@ == "."@
                && t.context().template_extension@ == "mustache"@,
        },
{
    compile_chars(to_chars(template))
}

} // verus!
