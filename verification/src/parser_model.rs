//! The parser as a mathematical state machine.
//!
//! A [`ParserModel`] is the parser's state over sequences; each function here
//! says what one operation of the parser makes of a state. The executable
//! parser is proved to follow this machine step by step.

use vstd::prelude::*;
use vstd::string::*;
use crate::error::Error;
use crate::text::{is_whitespace_spec, leading_ws, path_spec, trim_spec};
use crate::token::{inner_source, TokenClassView, TokenView};

verus! {

/// Where the parser stands: in text, inside an opening delimiter, inside a
/// tag, or inside a closing delimiter.
#[derive(Debug, Clone, Copy, PartialEq, Eq, Structural)]
pub enum ParserState {
    Text,
    OTag,
    Tag,
    CTag,
}

/// The parser's state.
pub struct ParserModel {
    /// The template.
    pub src: Seq<char>,
    /// How many characters have been consumed; the current one is `src[pos]`.
    pub pos: nat,
    /// The text or tag content read since the last token.
    pub content: Seq<char>,
    pub state: ParserState,
    /// The delimiters in force.
    pub otag: Seq<char>,
    pub ctag: Seq<char>,
    /// How much of a delimiter has been matched.
    pub tag_position: nat,
    /// Whether a tag opened with a brace that has not been closed.
    pub curly: bool,
    pub tokens: Seq<TokenView>,
    /// The names of the partials met so far.
    pub partials: Seq<Seq<char>>,
    /// Whether the text since the last tag, or since the start where there
    /// was no tag yet, began at the start of a line.
    pub fresh_line: bool,
    /// Whether text has become a token since the last tag; that text is then
    /// the last token.
    pub text_since_tag: bool,
}

/// The default opening delimiter, `{{`.
pub open spec fn default_otag() -> Seq<char> {
    seq!['{', '{']
}

/// The default closing delimiter, `}}`.
pub open spec fn default_ctag() -> Seq<char> {
    seq!['}', '}']
}

/// The literals `{{` and `}}` are the default delimiters.
pub proof fn lemma_default_delimiters()
    ensures
        "{{"@ == default_otag(),
        "}}"@ == default_ctag(),
{
    reveal_strlit("{{");
    reveal_strlit("}}");
    assert("{{"@ =~= default_otag());
    assert("}}"@ =~= default_ctag());
}

/// Where the whitespace ends that begins at `p`: whitespace other than the
/// line feed is passed over, but for a carriage return that a line feed
/// follows.
pub open spec fn line_tail(src: Seq<char>, p: nat) -> nat
    decreases src.len() - p,
{
    if p < src.len() && is_blank(src[p as int]) && !(src[p as int] == '\r' && p + 1 < src.len()
        && src[p as int + 1] == '\n') {
        line_tail(src, p + 1)
    } else {
        p
    }
}

/// The whitespace that `line_tail` passes over begins at `p` and ends where
/// it says.
pub proof fn lemma_line_tail(src: Seq<char>, p: nat)
    ensures
        p <= line_tail(src, p),
        p <= src.len() ==> line_tail(src, p) <= src.len(),
        forall|j: int| p <= j < line_tail(src, p) ==> is_blank(#[trigger] src[j]),
    decreases src.len() - p,
{
    if p < src.len() && is_blank(src[p as int]) && !(src[p as int] == '\r' && p + 1 < src.len()
        && src[p as int + 1] == '\n') {
        lemma_line_tail(src, p + 1);
    }
}

/// Whitespace other than the line feed.
pub open spec fn is_blank(c: char) -> bool {
    is_whitespace_spec(c) && c != '\n'
}

/// How many blank characters `s` ends with.
pub open spec fn trailing_blank(s: Seq<char>) -> nat
    decreases s.len(),
{
    if s.len() == 0 || !is_blank(s.last()) {
        0
    } else {
        1 + trailing_blank(s.drop_last())
    }
}

/// The first index of `s` at which a whitespace character stands, or its length.
pub open spec fn first_ws(s: Seq<char>) -> nat
    decreases s.len(),
{
    if s.len() == 0 || is_whitespace_spec(s[0]) {
        0
    } else {
        1 + first_ws(s.skip(1))
    }
}

/// The index of the last open-section marker in `ts`, or -1.
pub open spec fn last_open(ts: Seq<TokenView>) -> int
    decreases ts.len(),
{
    if ts.len() == 0 {
        -1
    } else if ts.last() is IncompleteSection {
        ts.len() - 1
    } else {
        last_open(ts.drop_last())
    }
}

/// The trimmed name of a tag, which must not be empty.
pub open spec fn check_content_spec(s: Seq<char>) -> Result<Seq<char>, Error> {
    if trim_spec(s).len() == 0 {
        Err(Error::EmptyTag)
    } else {
        Ok(trim_spec(s))
    }
}

/// The delimiters that the inside of a delimiter change names: what stands
/// before its first whitespace, and what follows that whitespace.
pub open spec fn delimiters_spec(inner: Seq<char>) -> Result<(Seq<char>, Seq<char>), Error> {
    let pos = first_ws(inner);
    if pos >= inner.len() {
        Err(Error::BadDelimiterChange)
    } else {
        let rest = inner.skip(pos as int);
        let pos2 = leading_ws(rest);
        if pos2 >= rest.len() {
            Err(Error::BadDelimiterChange)
        } else {
            Ok((inner.take(pos as int), rest.skip(pos2 as int)))
        }
    }
}

impl ParserModel {
    /// The state before any character is read.
    pub open spec fn initial(src: Seq<char>, otag: Seq<char>, ctag: Seq<char>) -> ParserModel {
        ParserModel {
            src,
            pos: 0,
            content: Seq::empty(),
            state: ParserState::Text,
            otag,
            ctag,
            tag_position: 0,
            curly: false,
            tokens: Seq::empty(),
            partials: Seq::empty(),
            fresh_line: true,
            text_since_tag: false,
        }
    }

    /// What every reachable state satisfies.
    pub open spec fn wf(self) -> bool {
        &&& self.pos <= self.src.len()
        &&& self.otag.len() > 0
        &&& self.ctag.len() > 0
        &&& self.state is OTag ==> 0 < self.tag_position < self.otag.len()
        &&& self.state is CTag ==> 0 < self.tag_position < self.ctag.len()
    }

    pub open spec fn eof(self) -> bool {
        self.pos >= self.src.len()
    }

    /// The current character.
    pub open spec fn ch(self) -> Option<char> {
        if self.pos < self.src.len() {
            Some(self.src[self.pos as int])
        } else {
            None
        }
    }

    /// The character after the current one.
    pub open spec fn peek(self) -> Option<char> {
        if self.pos + 1 < self.src.len() {
            Some(self.src[self.pos as int + 1])
        } else {
            None
        }
    }

    pub open spec fn ch_is(self, c: char) -> bool {
        self.ch() == Some(c)
    }

    /// Moves to the next character; at the end of the input nothing moves.
    pub open spec fn bump(self) -> ParserModel {
        if self.pos < self.src.len() {
            ParserModel { pos: self.pos + 1, ..self }
        } else {
            self
        }
    }

    pub open spec fn push_content(self, c: char) -> ParserModel {
        ParserModel { content: self.content.push(c), ..self }
    }

    pub open spec fn push_token(self, t: TokenView) -> ParserModel {
        ParserModel { tokens: self.tokens.push(t), ..self }
    }

    /// Turns the content, where there is any, into a text token.
    pub open spec fn add_text(self) -> ParserModel {
        if self.content.len() > 0 {
            ParserModel {
                tokens: self.tokens.push(TokenView::Text(self.content)),
                content: Seq::empty(),
                text_since_tag: true,
                ..self
            }
        } else {
            self
        }
    }

    /// Gives the part of the opening delimiter that matched back to the content.
    pub open spec fn not_otag(self) -> ParserModel {
        ParserModel { content: self.content + self.otag.take(self.tag_position as int), ..self }
    }

    /// Gives the part of the closing delimiter that matched back to the content.
    pub open spec fn not_ctag(self) -> ParserModel {
        ParserModel { content: self.content + self.ctag.take(self.tag_position as int), ..self }
    }

    /// Is the tag that was just closed followed, after whitespace at most, by
    /// the end of its line or of the input?
    pub open spec fn at_line_end(self) -> bool {
        let q = line_tail(self.src, self.pos);
        ||| q >= self.src.len()
        ||| self.src[q as int] == '\n'
        ||| (self.src[q as int] == '\r' && q + 1 < self.src.len() && self.src[q as int + 1]
            == '\n')
    }

    /// How the tag that was just closed relates to its line. It stands alone
    /// where the end of the line follows it and the text since the last tag
    /// is whitespace after a line start: after its last line feed, or from
    /// its beginning on where it began at a line start.
    pub open spec fn classify_token(self) -> TokenClassView {
        if !self.at_line_end() {
            TokenClassView::Normal
        } else if self.text_since_tag && self.tokens.len() > 0 && self.tokens.last() is Text {
            let s = self.tokens.last()->Text_0;
            let k = trailing_blank(s);
            if k == s.len() {
                if self.fresh_line {
                    TokenClassView::WhiteSpace(s, 0)
                } else {
                    TokenClassView::Normal
                }
            } else if s[s.len() - 1 - k] == '\n' {
                if k == 0 {
                    TokenClassView::StandAlone
                } else {
                    TokenClassView::WhiteSpace(s, (s.len() - k) as nat)
                }
            } else {
                TokenClassView::Normal
            }
        } else if self.fresh_line {
            TokenClassView::StandAlone
        } else {
            TokenClassView::Normal
        }
    }

    /// Consumes the rest of the line: the whitespace at the current
    /// character and the line terminator after it.
    pub open spec fn skip_newline(self) -> ParserModel {
        let p = ParserModel { pos: line_tail(self.src, self.pos), ..self };
        if p.ch_is('\r') {
            p.bump().bump()
        } else {
            p.bump()
        }
    }

    /// Notes that a tag has been read, and whether it stood alone on its
    /// line: the text after it then begins at a line start.
    pub open spec fn settle(self, alone: bool) -> ParserModel {
        ParserModel { fresh_line: alone, text_since_tag: false, ..self }
    }

    /// Replaces the last token by the text `s[..pos]`.
    pub open spec fn trim_last(self, s: Seq<char>, pos: nat) -> ParserModel {
        ParserModel {
            tokens: self.tokens.drop_last().push(TokenView::Text(s.take(pos as int))),
            ..self
        }
    }

    /// Removes, where the tag just closed stands alone on its line, the
    /// whitespace before it and the line terminator after it; says whether it
    /// did.
    pub open spec fn eat_whitespace(self) -> (ParserModel, bool) {
        match self.classify_token() {
            TokenClassView::Normal => (self.settle(false), false),
            TokenClassView::StandAlone => (self.skip_newline().settle(true), true),
            TokenClassView::WhiteSpace(s, pos) => (
                self.skip_newline().trim_last(s, pos).settle(true),
                true,
            ),
            TokenClassView::NewLineWhiteSpace(s, pos) => (
                self.skip_newline().trim_last(s, pos).settle(true),
                true,
            ),
        }
    }

    /// Adds a partial whose tag held `content` after its sigil; the indent is
    /// the whitespace that stood before the tag on its own line.
    pub open spec fn add_partial(self, content: Seq<char>, tag: Seq<char>) -> Result<
        ParserModel,
        Error,
    > {
        let (p, indent) = match self.classify_token() {
            TokenClassView::Normal => (self.settle(false), Seq::<char>::empty()),
            TokenClassView::StandAlone => (
                self.skip_newline().settle(true),
                Seq::<char>::empty(),
            ),
            TokenClassView::WhiteSpace(s, pos) => (
                self.skip_newline().trim_last(s, pos).settle(true),
                s.skip(pos as int),
            ),
            TokenClassView::NewLineWhiteSpace(s, pos) => (
                self.skip_newline().trim_last(s, pos).settle(true),
                s.skip(pos as int),
            ),
        };
        match check_content_spec(content) {
            Err(e) => Err(e),
            Ok(name) => Ok(
                ParserModel {
                    tokens: p.tokens.push(TokenView::Partial(name, indent, tag)),
                    partials: p.partials.push(name),
                    ..p
                },
            ),
        }
    }

    /// Closes the section that was opened last, whose name must be `name`.
    pub open spec fn close_section(self, name: Seq<Seq<char>>, tag: Seq<char>) -> Result<
        ParserModel,
        Error,
    > {
        let i = last_open(self.tokens);
        if i < 0 {
            Err(Error::StrayClose)
        } else {
            let children = self.tokens.subrange(i + 1, self.tokens.len() as int);
            match self.tokens[i] {
                TokenView::IncompleteSection(section_name, inverted, osection, _) => {
                    if section_name == name {
                        Ok(
                            ParserModel {
                                tokens: self.tokens.take(i).push(
                                    TokenView::Section(
                                        name,
                                        inverted,
                                        children,
                                        self.otag,
                                        osection,
                                        inner_source(children),
                                        tag,
                                        self.ctag,
                                    ),
                                ),
                                ..self
                            },
                        )
                    } else {
                        Err(Error::UnclosedSection)
                    }
                },
                _ => Err(Error::StrayClose),
            }
        }
    }

    /// Puts into force the delimiters that a delimiter change holds between
    /// its two equals signs; `tail` is the tag's content from its sigil on.
    pub open spec fn change_delimiters(self, tail: Seq<char>) -> Result<ParserModel, Error> {
        if tail.len() > 2 && tail.last() == '=' {
            match check_content_spec(tail.subrange(1, tail.len() - 1)) {
                Err(e) => Err(e),
                Ok(inner) => match delimiters_spec(inner) {
                    Err(e) => Err(e),
                    Ok((otag, ctag)) => Ok(ParserModel { otag, ctag, ..self }),
                },
            }
        } else {
            Err(Error::BadDelimiterChange)
        }
    }

    /// Adds an interpolation of the name `raw`.
    pub open spec fn add_value_tag(self, raw: Seq<char>, escaped: bool, tag: Seq<char>) -> Result<
        ParserModel,
        Error,
    > {
        match check_content_spec(raw) {
            Err(e) => Err(e),
            Ok(name) => Ok(
                self.settle(false).push_token(
                    if escaped {
                        TokenView::EscapedTag(path_spec(name), tag)
                    } else {
                        TokenView::UnescapedTag(path_spec(name), tag)
                    },
                ),
            ),
        }
    }

    /// Opens a section named by `rest`, what follows the sigil in the tag.
    pub open spec fn open_section(self, rest: Seq<char>, inverted: bool, tag: Seq<char>)
        -> Result<ParserModel, Error> {
        let (q, newlined) = self.eat_whitespace();
        match check_content_spec(rest) {
            Err(e) => Err(e),
            Ok(name) => Ok(
                q.push_token(TokenView::IncompleteSection(path_spec(name), inverted, tag, newlined)),
            ),
        }
    }

    /// Closes the section named by `rest`, what follows the sigil in the tag.
    pub open spec fn end_section(self, rest: Seq<char>, tag: Seq<char>) -> Result<
        ParserModel,
        Error,
    > {
        let q = self.eat_whitespace().0;
        match check_content_spec(rest) {
            Err(e) => Err(e),
            Ok(name) => q.close_section(path_spec(name), tag),
        }
    }

    /// Acts on a tag by its sigil, the character `content[k]`, the first one
    /// that is not whitespace.
    #[verifier::opaque]
    pub open spec fn dispatch(self, content: Seq<char>, k: nat, tag: Seq<char>) -> Result<
        ParserModel,
        Error,
    > {
        let tail = content.skip(k as int);
        let rest = tail.skip(1);
        let sigil = tail[0];
        if sigil == '!' {
            Ok(self.eat_whitespace().0)
        } else if sigil == '&' {
            self.add_value_tag(rest, false, tag)
        } else if sigil == '{' {
            if tail.last() == '}' {
                self.add_value_tag(tail.subrange(1, tail.len() - 1), false, tag)
            } else {
                Err(Error::UnbalancedTripleMustache)
            }
        } else if sigil == '#' {
            self.open_section(rest, false, tag)
        } else if sigil == '^' {
            self.open_section(rest, true, tag)
        } else if sigil == '/' {
            self.end_section(rest, tag)
        } else if sigil == '>' {
            self.add_partial(rest, tag)
        } else if sigil == '=' {
            self.eat_whitespace().0.change_delimiters(tail)
        } else {
            self.add_value_tag(content, true, tag)
        }
    }

    /// Handles the tag whose closing delimiter ends at the current character:
    /// consumes that character and acts on the tag's content by its sigil, the
    /// first character that is not whitespace.
    pub open spec fn add_tag(self) -> Result<ParserModel, Error> {
        let tag = self.otag + self.content + self.ctag;
        let content = self.content;
        let p = ParserModel { content: Seq::empty(), ..self.bump() };
        let k = leading_ws(content);
        if k >= content.len() {
            Err(Error::EmptyTag)
        } else {
            p.dispatch(content, k, tag)
        }
    }

    /// What the parser makes of the current character.
    pub open spec fn step(self) -> Result<ParserModel, Error> {
        let ch = self.src[self.pos as int];
        match self.state {
            ParserState::Text => {
                if ch == self.otag[0] {
                    if self.otag.len() > 1 {
                        Ok(
                            ParserModel {
                                tag_position: 1,
                                state: ParserState::OTag,
                                ..self
                            }.bump(),
                        )
                    } else {
                        Ok(ParserModel { state: ParserState::Tag, ..self.add_text() }.bump())
                    }
                } else {
                    Ok(self.push_content(ch).bump())
                }
            },
            ParserState::OTag => {
                if ch == self.otag[self.tag_position as int] {
                    if self.tag_position == self.otag.len() - 1 {
                        Ok(
                            ParserModel {
                                curly: false,
                                state: ParserState::Tag,
                                ..self.add_text()
                            }.bump(),
                        )
                    } else {
                        Ok(ParserModel { tag_position: self.tag_position + 1, ..self }.bump())
                    }
                } else {
                    Ok(
                        ParserModel { state: ParserState::Text, ..self }.not_otag().push_content(
                            ch,
                        ).bump(),
                    )
                }
            },
            ParserState::Tag => {
                if self.content.len() == 0 && ch == '{' {
                    Ok(ParserModel { curly: true, ..self }.push_content(ch).bump())
                } else if self.curly && ch == '}' {
                    Ok(ParserModel { curly: false, ..self }.push_content(ch).bump())
                } else if ch == self.ctag[0] {
                    if self.ctag.len() > 1 {
                        Ok(
                            ParserModel {
                                tag_position: 1,
                                state: ParserState::CTag,
                                ..self
                            }.bump(),
                        )
                    } else {
                        match self.add_tag() {
                            Err(e) => Err(e),
                            Ok(p) => Ok(ParserModel { state: ParserState::Text, ..p }),
                        }
                    }
                } else {
                    Ok(self.push_content(ch).bump())
                }
            },
            ParserState::CTag => {
                if ch == self.ctag[self.tag_position as int] {
                    if self.tag_position == self.ctag.len() - 1 {
                        match self.add_tag() {
                            Err(e) => Err(e),
                            Ok(p) => Ok(ParserModel { state: ParserState::Text, ..p }),
                        }
                    } else {
                        Ok(ParserModel { tag_position: self.tag_position + 1, ..self }.bump())
                    }
                } else {
                    Err(Error::UnbalancedTripleMustache)
                }
            },
        }
    }

    /// The state after every character has been read, or the first error.
    pub open spec fn run(self) -> Result<ParserModel, Error>
        decreases self.src.len() - self.pos,
    {
        if self.pos >= self.src.len() {
            Ok(self)
        } else {
            match self.step() {
                Err(e) => Err(e),
                Ok(next) => if next.src == self.src && self.pos < next.pos <= next.src.len() {
                    next.run()
                } else {
                    Ok(next)
                },
            }
        }
    }

    /// What is left to do at the end of the input: flush the pending text,
    /// and refuse a tag or a section that is still open.
    pub open spec fn finish(self) -> Result<(Seq<TokenView>, Seq<Seq<char>>), Error> {
        if self.state is Tag {
            Err(Error::UnclosedTag)
        } else {
            let p = match self.state {
                ParserState::OTag => self.not_otag().add_text(),
                ParserState::CTag => self.not_ctag().add_text(),
                _ => self.add_text(),
            };
            if last_open(p.tokens) >= 0 {
                Err(Error::UnclosedSection)
            } else {
                Ok((p.tokens, p.partials))
            }
        }
    }
}

/// The tokens of the template `src` read with the delimiters `otag` and
/// `ctag`, and the names of the partials it refers to, in order; or the error
/// that the template holds.
pub open spec fn parse_spec(src: Seq<char>, otag: Seq<char>, ctag: Seq<char>) -> Result<
    (Seq<TokenView>, Seq<Seq<char>>),
    Error,
> {
    if otag.len() == 0 || ctag.len() == 0 {
        Err(Error::BadDelimiterChange)
    } else {
        match ParserModel::initial(src, otag, ctag).run() {
            Err(e) => Err(e),
            Ok(p) => p.finish(),
        }
    }
}

} // verus!
