//! A Mustache template engine: a character-level parser that folds a template
//! into a tree of tokens, and a renderer that walks that tree against a
//! hierarchical data value.

pub mod builder;
pub mod compiler;
pub mod context;
pub mod data;
pub mod encoder;
pub mod error;
pub mod equivalence;
pub mod laws;
pub mod parser;
pub mod parser_laws;
pub mod parser_model;
pub mod render_model;
pub mod template;
pub mod text;
pub mod token;

pub use builder::{MapBuilder, StrAllocating, VecBuilder};
pub use compiler::{compile_chars, compile_str, Compiler};
pub use context::{decode_source, Context};
pub use data::{Data, DataMap, Lambda};
pub use encoder::{Encoder, EncoderResult};
pub use error::Error;
pub use parser::Parser;
pub use template::{PartialMap, Template};
pub use token::{Token, TokenClass};

use vstd::prelude::*;
use compiler::compile_spec;
use data::fun_free;
use render_model::{Call, Outcome, Rendered};
use template::render_template;

verus! {

/// What rendering the template `src` against `data` returns: the error of
/// the template, or else, for the calls of lambdas that were made, the text
/// rendered or the error that stopped the rendering. Against data that holds
/// no callable there is no call.
pub open spec fn render_str_spec(src: Seq<char>, data: Data, r: Result<String, Error>) -> bool {
    match compile_spec(src) {
        Err(e) => r matches Err(x) && x == e,
        Ok(v) => {
            &&& exists|calls: Seq<Call>|
                {
                    let rendered = #[trigger] render_template(v, data, calls);
                    &&& rendered.at.used == calls.len()
                    &&& returned_as(rendered, r)
                }
            &&& fun_free(data) ==> returned_as(render_template(v, data, Seq::empty()), r)
        },
    }
}

/// Is `r` what is returned for the rendering `rendered`: its text where it
/// was done, its error where it failed?
pub open spec fn returned_as(rendered: Rendered, r: Result<String, Error>) -> bool {
    match rendered.end {
        Outcome::Done => r matches Ok(s) && s@ == rendered.out,
        Outcome::Failed(e) => r matches Err(x) && x == e,
        Outcome::Lambda => false,
    }
}

/// Compiles the template given by its characters, without loading any
/// partial, and renders it against `data`.
pub fn render_iter(template: Vec<char>, data: &Data) -> (r: Result<String, Error>)
    ensures
        render_str_spec(template@, *data, r),
{
    let compiled = match compile_chars(template) {
        Err(e) => {
            return Err(e);
        },
        Ok(t) => t,
    };
    let mut out = String::new();
    let res = compiled.render_data(&mut out, data);
    proof {
        let calls = choose|calls: Seq<Call>|
            template::rendered_as(
                #[trigger] render_template(compiled@, *data, calls),
                Seq::<char>::empty(),
                out@,
                res,
            ) && render_template(compiled@, *data, calls).at.used == calls.len();
        let rendered = render_template(compiled@, *data, calls);
        assert(Seq::<char>::empty() + rendered.out =~= rendered.out);
        let plain = render_template(compiled@, *data, Seq::empty());
        assert(Seq::<char>::empty() + plain.out =~= plain.out);
        assert(returned_as(rendered, match res {
            Err(e) => Err(e),
            Ok(()) => Ok(out),
        }));
    }
    match res {
        Err(e) => Err(e),
        Ok(()) => Ok(out),
    }
}

/// Compiles `template`, without loading any partial, and renders it against
/// `data`.
pub fn render_str(template: &str, data: &Data) -> (r: Result<String, Error>)
    ensures
        render_str_spec(template@, *data, r),
{
    render_iter(text::to_chars(template), data)
}

} // verus!
