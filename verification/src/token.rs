//! The tokens that the parser produces and the renderer consumes.

use vstd::prelude::*;
use vstd::string::*;
use crate::text::strings_view;

verus! {

/// One node of a compiled template. Every variant carries the exact source
/// text that produced it.
#[derive(Debug, PartialEq)]
pub enum Token {
    /// Literal text.
    Text(String),
    /// An escaped interpolation: path, tag source.
    EscapedTag(Vec<String>, String),
    /// An unescaped interpolation: path, tag source.
    UnescapedTag(Vec<String>, String),
    /// A section: path, inverted, children, opening delimiter, opening tag
    /// source, inner source, closing tag source, closing delimiter.
    Section(Vec<String>, bool, Vec<Token>, String, String, String, String, String),
    /// The parser's marker for a section that is open: path, inverted, tag
    /// source, whether the tag stood alone on its line.
    IncompleteSection(Vec<String>, bool, String, bool),
    /// The inclusion of a partial: name, indent, tag source.
    Partial(String, String, String),
}

/// The mathematical value of a [`Token`].
pub enum TokenView {
    Text(Seq<char>),
    EscapedTag(Seq<Seq<char>>, Seq<char>),
    UnescapedTag(Seq<Seq<char>>, Seq<char>),
    Section(
        Seq<Seq<char>>,
        bool,
        Seq<TokenView>,
        Seq<char>,
        Seq<char>,
        Seq<char>,
        Seq<char>,
        Seq<char>,
    ),
    IncompleteSection(Seq<Seq<char>>, bool, Seq<char>, bool),
    Partial(Seq<char>, Seq<char>, Seq<char>),
}

impl View for Token {
    type V = TokenView;

    open spec fn view(&self) -> TokenView
        decreases self,
    {
        match self {
            Token::Text(s) => TokenView::Text(s@),
            Token::EscapedTag(p, s) => TokenView::EscapedTag(strings_view(p@), s@),
            Token::UnescapedTag(p, s) => TokenView::UnescapedTag(strings_view(p@), s@),
            Token::Section(p, inv, children, otag, osection, src, csection, ctag) => {
                TokenView::Section(
                    strings_view(p@),
                    *inv,
                    Seq::new(
                        children@.len(),
                        |i: int|
                            if 0 <= i < children@.len() {
                                children@[i]@
                            } else {
                                TokenView::Text(Seq::empty())
                            },
                    ),
                    otag@,
                    osection@,
                    src@,
                    csection@,
                    ctag@,
                )
            },
            Token::IncompleteSection(p, inv, s, newlined) => TokenView::IncompleteSection(
                strings_view(p@),
                *inv,
                s@,
                *newlined,
            ),
            Token::Partial(name, indent, s) => TokenView::Partial(name@, indent@, s@),
        }
    }
}

/// The values of a sequence of tokens.
pub open spec fn tokens_view(ts: Seq<Token>) -> Seq<TokenView> {
    Seq::new(ts.len(), |i: int| ts[i]@)
}

/// The children of a section, as its view holds them, are the values of the
/// tokens it holds.
pub proof fn lemma_section_children(t: Token)
    requires
        t is Section,
    ensures
        t@ is Section,
        t@->Section_2 == tokens_view(t->Section_2@),
{
    match t {
        Token::Section(p, inv, children, otag, osection, src, csection, ctag) => {
            assert(t@->Section_2 =~= tokens_view(children@));
        },
        _ => {},
    }
}

impl TokenView {
    /// The source text that a token was read from; for a section, its opening
    /// tag, inner source and closing tag.
    pub open spec fn source(self) -> Seq<char> {
        match self {
            TokenView::Text(s) => s,
            TokenView::EscapedTag(_, s) => s,
            TokenView::UnescapedTag(_, s) => s,
            TokenView::Section(_, _, _, _, osection, src, csection, _) => osection + src
                + csection,
            TokenView::IncompleteSection(_, _, s, _) => s,
            TokenView::Partial(_, _, s) => s,
        }
    }
}

/// The sources of `ts`, one after the other.
pub open spec fn inner_source(ts: Seq<TokenView>) -> Seq<char>
    decreases ts.len(),
{
    if ts.len() == 0 {
        Seq::empty()
    } else {
        inner_source(ts.drop_last()) + ts.last().source()
    }
}

/// Holds when neither `t` nor any token below it is an open-section marker.
pub open spec fn token_complete(t: TokenView) -> bool
    decreases t,
{
    match t {
        TokenView::IncompleteSection(_, _, _, _) => false,
        TokenView::Section(_, _, children, _, _, _, _, _) => forall|i: int|
            0 <= i < children.len() ==> token_complete(#[trigger] children[i]),
        _ => true,
    }
}

/// Holds when no token of `ts`, at any depth, is an open-section marker.
pub open spec fn tokens_complete(ts: Seq<TokenView>) -> bool {
    forall|i: int| 0 <= i < ts.len() ==> token_complete(#[trigger] ts[i])
}

/// How a tag relates to the line it stands on.
#[derive(Debug, Clone, PartialEq)]
pub enum TokenClass {
    /// Other text shares the line.
    Normal,
    /// The tag is alone on its line, with nothing before it.
    StandAlone,
    /// The tag is alone on its line after the whitespace that ends the given
    /// text; the number is where that whitespace begins.
    WhiteSpace(String, usize),
    /// As `WhiteSpace`, for text that a newline precedes.
    NewLineWhiteSpace(String, usize),
}

/// The mathematical value of a [`TokenClass`].
pub enum TokenClassView {
    Normal,
    StandAlone,
    WhiteSpace(Seq<char>, nat),
    NewLineWhiteSpace(Seq<char>, nat),
}

impl View for TokenClass {
    type V = TokenClassView;

    open spec fn view(&self) -> TokenClassView {
        match self {
            TokenClass::Normal => TokenClassView::Normal,
            TokenClass::StandAlone => TokenClassView::StandAlone,
            TokenClass::WhiteSpace(s, pos) => TokenClassView::WhiteSpace(s@, *pos as nat),
            TokenClass::NewLineWhiteSpace(s, pos) => TokenClassView::NewLineWhiteSpace(
                s@,
                *pos as nat,
            ),
        }
    }
}

} // verus!
