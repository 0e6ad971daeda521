//! Where templates and partials are kept.

use vstd::prelude::*;
use vstd::string::*;
use crate::error::Error;
use crate::text::string_from_utf8;

verus! {

/// The shared settings of compiling: the directory that templates are read
/// from and the extension of their files.
#[derive(Debug, Clone, PartialEq)]
pub struct Context {
    pub template_path: String,
    pub template_extension: String,
}

/// The text of a template or partial that was read as `bytes`: the bytes
/// must be valid UTF-8.
pub fn decode_source(bytes: Vec<u8>) -> (r: Result<String, Error>)
    ensures
        match r {
            Ok(s) => vstd::utf8::valid_utf8(bytes@) && s@ == vstd::utf8::decode_utf8(bytes@),
            Err(e) => e == Error::InvalidStr && !vstd::utf8::valid_utf8(bytes@),
        },
{
    match string_from_utf8(bytes) {
        Some(s) => Ok(s),
        None => Err(Error::InvalidStr),
    }
}

impl Context {
    /// A context for the templates under `path`, with the extension `mustache`.
    pub fn new(path: String) -> (c: Context)
        ensures
            c.template_path@ == path@,
            c.template_extension@ == "mustache"@,
    {
        Context { template_path: path, template_extension: "mustache".to_owned() }
    }

    /// The name of the file that holds the partial `name`: the name, a dot,
    /// and the extension.
    pub fn file_name(&self, name: &str) -> (file: String)
        ensures
            file@ == name@ + seq!['.'] + self.template_extension@,
    {
        let mut file = name.to_owned();
        file.append(".");
        file.append(self.template_extension.as_str());
        proof {
            reveal_strlit(".");
            assert("."@ =~= seq!['.']);
        }
        file
    }
}

} // verus!
