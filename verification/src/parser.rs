//! The parser: a character-level state machine that turns a template into
//! tokens, folding each section with its children as it closes.

use vstd::prelude::*;
use vstd::string::*;
use crate::error::Error;
use crate::parser_model::{
    check_content_spec,
    first_ws,
    is_blank,
    last_open,
    line_tail,
    parse_spec,
    trailing_blank,
    ParserModel,
    ParserState,
};
use crate::text::{
    from_chars,
    is_whitespace,
    is_whitespace_spec,
    lemma_leading_ws,
    same_path,
    split_path,
    string_from,
    strings_view,
    to_chars,
    trim_bounds,
};
use crate::token::{inner_source, tokens_view, Token, TokenClass, TokenView};

verus! {

/// The parser's state: the template, the position in it, and what has been
/// read so far.
pub struct Parser {
    src: Vec<char>,
    pos: usize,
    content: Vec<char>,
    state: ParserState,
    otag: Vec<char>,
    ctag: Vec<char>,
    tag_position: usize,
    curly: bool,
    tokens: Vec<Token>,
    partials: Vec<String>,
    fresh_line: bool,
    text_since_tag: bool,
}

impl View for Parser {
    type V = ParserModel;

    closed spec fn view(&self) -> ParserModel {
        ParserModel {
            src: self.src@,
            pos: self.pos as nat,
            content: self.content@,
            state: self.state,
            otag: self.otag@,
            ctag: self.ctag@,
            tag_position: self.tag_position as nat,
            curly: self.curly,
            tokens: tokens_view(self.tokens@),
            partials: strings_view(self.partials@),
            fresh_line: self.fresh_line,
            text_since_tag: self.text_since_tag,
        }
    }
}

pub proof fn lemma_trailing_blank(s: Seq<char>, k: int)
    requires
        0 <= k <= s.len(),
        forall|j: int| s.len() - k <= j < s.len() ==> is_blank(#[trigger] s[j]),
        k == s.len() || !is_blank(s[s.len() - k - 1]),
    ensures
        trailing_blank(s) == k,
    decreases k,
{
    if k > 0 {
        let t = s.drop_last();
        assert forall|j: int| t.len() - (k - 1) <= j < t.len() implies is_blank(#[trigger] t[j]) by {
            assert(t[j] == s[j]);
        }
        lemma_trailing_blank(t, k - 1);
    }
}

pub proof fn lemma_first_ws(s: Seq<char>, k: int)
    requires
        0 <= k <= s.len(),
        forall|j: int| 0 <= j < k ==> !is_whitespace_spec(#[trigger] s[j]),
        k == s.len() || is_whitespace_spec(s[k]),
    ensures
        first_ws(s) == k,
    decreases k,
{
    if k > 0 {
        let t = s.skip(1);
        assert forall|j: int| 0 <= j < k - 1 implies !is_whitespace_spec(#[trigger] t[j]) by {
            assert(t[j] == s[j + 1]);
        }
        lemma_first_ws(t, k - 1);
    }
}

pub proof fn lemma_last_open(ts: Seq<TokenView>, i: int)
    requires
        0 <= i <= ts.len(),
        forall|j: int| i <= j < ts.len() ==> !(#[trigger] ts[j] is IncompleteSection),
        i > 0 ==> ts[i - 1] is IncompleteSection,
    ensures
        last_open(ts) == i - 1,
    decreases ts.len() - i,
{
    if i < ts.len() {
        let t = ts.drop_last();
        assert forall|j: int| i <= j < t.len() implies !(#[trigger] t[j] is IncompleteSection) by {
            assert(t[j] == ts[j]);
        }
        lemma_last_open(t, i);
    }
}

/// Is `c` whitespace other than the line feed?
fn blank(c: char) -> (b: bool)
    ensures
        b == is_blank(c),
{
    is_whitespace(c) && c != '\n'
}

/// Is `t` the marker of an open section?
fn is_incomplete(t: &Token) -> (b: bool)
    ensures
        b == (t@ is IncompleteSection),
{
    match t {
        Token::IncompleteSection(_, _, _, _) => true,
        _ => false,
    }
}

/// Appends the characters of `v` to `s`.
fn append_chars(s: &mut String, v: &Vec<char>)
    ensures
        final(s)@ == old(s)@ + v@,
{
    let t = from_chars(v);
    s.append(t.as_str());
}

/// The characters `v[from..to]`.
fn slice_chars(v: &Vec<char>, from: usize, to: usize) -> (r: Vec<char>)
    requires
        from <= to <= v@.len(),
    ensures
        r@ == v@.subrange(from as int, to as int),
{
    let mut r: Vec<char> = Vec::new();
    let mut i: usize = from;
    while i < to
        invariant
            from <= i <= to <= v@.len(),
            r@ == v@.subrange(from as int, i as int),
        decreases to - i,
    {
        r.push(v[i]);
        assert(v@.subrange(from as int, i + 1) =~= v@.subrange(from as int, i as int).push(
            v@[i as int],
        ));
        i += 1;
    }
    r
}

/// The source text of the tokens `ts`, one after the other.
fn collect_source(ts: &Vec<Token>) -> (src: String)
    ensures
        src@ == inner_source(tokens_view(ts@)),
{
    let mut src = String::new();
    let ghost tv = tokens_view(ts@);
    let mut i: usize = 0;
    assert(tv.take(0) =~= Seq::<TokenView>::empty());
    while i < ts.len()
        invariant
            0 <= i <= ts@.len(),
            tv == tokens_view(ts@),
            src@ == inner_source(tv.take(i as int)),
        decreases ts@.len() - i,
    {
        proof {
            let t = tv.take(i + 1);
            assert(t.drop_last() =~= tv.take(i as int));
            assert(t.last() == ts@[i as int]@);
        }
        match &ts[i] {
            Token::Text(s) => {
                src.append(s.as_str());
            },
            Token::EscapedTag(_, s) => {
                src.append(s.as_str());
            },
            Token::UnescapedTag(_, s) => {
                src.append(s.as_str());
            },
            Token::Section(_, _, _, _, osection, inner, csection, _) => {
                src.append(osection.as_str());
                src.append(inner.as_str());
                src.append(csection.as_str());
                assert(src@ =~= inner_source(tv.take(i as int)) + (osection@ + inner@
                    + csection@));
            },
            Token::IncompleteSection(_, _, s, _) => {
                src.append(s.as_str());
            },
            Token::Partial(_, _, s) => {
                src.append(s.as_str());
            },
        }
        i += 1;
    }
    assert(tv.take(ts@.len() as int) =~= tv);
    src
}

impl Parser {
    /// Holds of a parser that `new` made, and of every state it passes through.
    pub closed spec fn wf(&self) -> bool {
        self@.wf()
    }

    /// A parser at the start of `src`, reading with the delimiters `otag` and
    /// `ctag`; an empty delimiter is refused.
    pub fn new(src: Vec<char>, otag: &str, ctag: &str) -> (r: Result<Parser, Error>)
        ensures
            match r {
                Ok(p) => otag@.len() > 0 && ctag@.len() > 0 && p.wf() && p@
                    == ParserModel::initial(src@, otag@, ctag@),
                Err(e) => e == Error::BadDelimiterChange && (otag@.len() == 0 || ctag@.len()
                    == 0),
            },
    {
        let otag_chars = to_chars(otag);
        let ctag_chars = to_chars(ctag);
        if otag_chars.len() == 0 || ctag_chars.len() == 0 {
            return Err(Error::BadDelimiterChange);
        }
        let p = Parser {
            src,
            pos: 0,
            content: Vec::new(),
            state: ParserState::Text,
            otag: otag_chars,
            ctag: ctag_chars,
            tag_position: 0,
            curly: false,
            tokens: Vec::new(),
            partials: Vec::new(),
            fresh_line: true,
            text_since_tag: false,
        };
        assert(p@.tokens =~= Seq::<TokenView>::empty());
        assert(p@.partials =~= Seq::<Seq<char>>::empty());
        Ok(p)
    }

    /// Has the whole input been consumed?
    fn eof(&self) -> (b: bool)
        requires
            self@.wf(),
        ensures
            b == self@.eof(),
    {
        self.pos >= self.src.len()
    }

    /// Moves to the next character.
    fn bump(&mut self)
        requires
            old(self)@.wf(),
        ensures
            final(self)@ == old(self)@.bump(),
            final(self)@.wf(),
    {
        if self.pos < self.src.len() {
            self.pos += 1;
        }
    }

    /// The character after the current one.
    fn peek(&self) -> (c: Option<char>)
        requires
            self@.wf(),
        ensures
            c == self@.peek(),
    {
        if self.pos < self.src.len() && self.pos + 1 < self.src.len() {
            Some(self.src[self.pos + 1])
        } else {
            None
        }
    }

    /// Is the current character `c`?
    fn ch_is(&self, c: char) -> (b: bool)
        requires
            self@.wf(),
        ensures
            b == self@.ch_is(c),
    {
        if self.pos < self.src.len() {
            self.src[self.pos] == c
        } else {
            false
        }
    }

    /// Turns the content read so far into a text token.
    fn add_text(&mut self)
        requires
            old(self)@.wf(),
        ensures
            final(self)@ == old(self)@.add_text(),
            final(self)@.wf(),
    {
        if self.content.len() > 0 {
            let s = from_chars(&self.content);
            self.content = Vec::new();
            let ghost before = tokens_view(self.tokens@);
            self.tokens.push(Token::Text(s));
            self.text_since_tag = true;
            assert(tokens_view(self.tokens@) =~= before.push(TokenView::Text(s@)));
        }
    }

    /// Gives the part of the opening delimiter that matched back to the content.
    fn not_otag(&mut self)
        requires
            old(self)@.wf(),
            old(self)@.tag_position <= old(self)@.otag.len(),
        ensures
            final(self)@ == old(self)@.not_otag(),
            final(self)@.wf(),
    {
        let mut i: usize = 0;
        assert(self.otag@.take(0) =~= Seq::<char>::empty());
        assert(self.content@ + Seq::<char>::empty() =~= self.content@);
        while i < self.tag_position
            invariant
                0 <= i <= self.tag_position <= self.otag@.len(),
                self.content@ == old(self).content@ + self.otag@.take(i as int),
                self.src == old(self).src,
                self.pos == old(self).pos,
                self.state == old(self).state,
                self.otag == old(self).otag,
                self.ctag == old(self).ctag,
                self.tag_position == old(self).tag_position,
                self.curly == old(self).curly,
                self.tokens == old(self).tokens,
                self.partials == old(self).partials,
                self.fresh_line == old(self).fresh_line,
                self.text_since_tag == old(self).text_since_tag,
            decreases self.tag_position - i,
        {
            let c = self.otag[i];
            self.content.push(c);
            assert(self.otag@.take(i + 1) =~= self.otag@.take(i as int).push(c));
            assert(self.content@ =~= old(self).content@ + self.otag@.take(i + 1));
            i += 1;
        }
    }

    /// Gives the part of the closing delimiter that matched back to the content.
    fn not_ctag(&mut self)
        requires
            old(self)@.wf(),
            old(self)@.tag_position <= old(self)@.ctag.len(),
        ensures
            final(self)@ == old(self)@.not_ctag(),
            final(self)@.wf(),
    {
        let mut i: usize = 0;
        assert(self.ctag@.take(0) =~= Seq::<char>::empty());
        assert(self.content@ + Seq::<char>::empty() =~= self.content@);
        while i < self.tag_position
            invariant
                0 <= i <= self.tag_position <= self.ctag@.len(),
                self.content@ == old(self).content@ + self.ctag@.take(i as int),
                self.src == old(self).src,
                self.pos == old(self).pos,
                self.state == old(self).state,
                self.otag == old(self).otag,
                self.ctag == old(self).ctag,
                self.tag_position == old(self).tag_position,
                self.curly == old(self).curly,
                self.tokens == old(self).tokens,
                self.partials == old(self).partials,
                self.fresh_line == old(self).fresh_line,
                self.text_since_tag == old(self).text_since_tag,
            decreases self.tag_position - i,
        {
            let c = self.ctag[i];
            self.content.push(c);
            assert(self.ctag@.take(i + 1) =~= self.ctag@.take(i as int).push(c));
            assert(self.content@ =~= old(self).content@ + self.ctag@.take(i + 1));
            i += 1;
        }
    }

    /// Where the whitespace ends that begins at the current character.
    fn line_tail(&self) -> (q: usize)
        requires
            self@.wf(),
        ensures
            q == line_tail(self@.src, self@.pos),
            self@.pos <= q <= self@.src.len(),
    {
        let len = self.src.len();
        let mut q: usize = self.pos;
        while q < len && blank(self.src[q]) && !(self.src[q] == '\r' && q + 1 < len && self.src[q
            + 1] == '\n')
            invariant
                self.pos <= q <= len == self.src@.len(),
                line_tail(self.src@, q as nat) == line_tail(self.src@, self.pos as nat),
            decreases len - q,
        {
            q += 1;
        }
        q
    }

    /// Classifies the tag that was just closed: does it stand alone on its
    /// line, and after which whitespace?
    fn classify_token(&self) -> (c: TokenClass)
        requires
            self@.wf(),
        ensures
            c@ == self@.classify_token(),
            !(c is NewLineWhiteSpace),
            c matches TokenClass::WhiteSpace(s, pos) ==> self@.tokens.len() > 0 && pos
                <= s@.len(),
    {
        let len = self.src.len();
        let q = self.line_tail();
        let at_end = q >= len || self.src[q] == '\n' || (self.src[q] == '\r' && q + 1 < len
            && self.src[q + 1] == '\n');
        if !at_end {
            return TokenClass::Normal;
        }
        let n = self.tokens.len();
        if self.text_since_tag && n > 0 {
            assert(self@.tokens.last() == self.tokens@[n - 1]@);
            match &self.tokens[n - 1] {
                Token::Text(s) => {
                    let chars = to_chars(s.as_str());
                    let len = chars.len();
                    let mut k: usize = 0;
                    while k < len && blank(chars[len - 1 - k])
                        invariant
                            0 <= k <= len == chars@.len(),
                            forall|j: int| len - k <= j < len ==> is_blank(#[trigger] chars@[j]),
                        decreases len - k,
                    {
                        k += 1;
                    }
                    proof {
                        lemma_trailing_blank(chars@, k as int);
                    }
                    if k == len {
                        if self.fresh_line {
                            return TokenClass::WhiteSpace(s.clone(), 0);
                        } else {
                            return TokenClass::Normal;
                        }
                    } else if chars[len - 1 - k] == '\n' {
                        if k == 0 {
                            return TokenClass::StandAlone;
                        } else {
                            return TokenClass::WhiteSpace(s.clone(), len - k);
                        }
                    } else {
                        return TokenClass::Normal;
                    }
                },
                _ => {},
            }
        }
        if self.fresh_line {
            TokenClass::StandAlone
        } else {
            TokenClass::Normal
        }
    }

    /// Consumes the rest of the line: the whitespace at the current
    /// character and the line terminator after it.
    fn skip_newline(&mut self)
        requires
            old(self)@.wf(),
        ensures
            final(self)@ == old(self)@.skip_newline(),
            final(self)@.wf(),
            final(self)@.pos >= old(self)@.pos,
    {
        self.pos = self.line_tail();
        if self.ch_is('\r') {
            self.bump();
        }
        self.bump();
    }

    /// Notes that a tag has been read, and whether it stood alone on its line.
    fn settle(&mut self, alone: bool)
        ensures
            final(self)@ == old(self)@.settle(alone),
    {
        self.fresh_line = alone;
        self.text_since_tag = false;
    }

    /// Replaces the last token by the text `s[..pos]`.
    fn trim_last(&mut self, s: &String, pos: usize)
        requires
            old(self)@.wf(),
            old(self)@.tokens.len() > 0,
            pos <= s@.len(),
        ensures
            final(self)@ == old(self)@.trim_last(s@, pos as nat),
            final(self)@.wf(),
    {
        let chars = to_chars(s.as_str());
        let text = string_from(&chars, 0, pos);
        let ghost before = tokens_view(self.tokens@);
        self.tokens.pop();
        self.tokens.push(Token::Text(text));
        assert(tokens_view(self.tokens@) =~= before.drop_last().push(
            TokenView::Text(s@.take(pos as int)),
        ));
    }

    /// Removes the whitespace around a tag that stands alone on its line, and
    /// says whether it did.
    fn eat_whitespace(&mut self) -> (r: bool)
        requires
            old(self)@.wf(),
        ensures
            (final(self)@, r) == old(self)@.eat_whitespace(),
            final(self)@.wf(),
            final(self)@.src == old(self)@.src,
            final(self)@.state == old(self)@.state,
            final(self)@.pos >= old(self)@.pos,
    {
        match self.classify_token() {
            TokenClass::Normal => {
                self.settle(false);
                false
            },
            TokenClass::StandAlone => {
                self.skip_newline();
                self.settle(true);
                true
            },
            TokenClass::WhiteSpace(s, pos) => {
                self.skip_newline();
                self.trim_last(&s, pos);
                self.settle(true);
                true
            },
            TokenClass::NewLineWhiteSpace(_, _) => false,
        }
    }

    /// The bounds of the trimmed name in `content[from..to]`; a name of
    /// whitespace alone is an error.
    fn check_content(content: &Vec<char>, from: usize, to: usize) -> (r: Result<
        (usize, usize),
        Error,
    >)
        requires
            from <= to <= content@.len(),
        ensures
            match r {
                Ok((a, b)) => from <= a < b <= to && check_content_spec(
                    content@.subrange(from as int, to as int),
                ) == Ok::<Seq<char>, Error>(content@.subrange(a as int, b as int))
                    && !is_whitespace_spec(content@[a as int]),
                Err(e) => check_content_spec(
                    content@.subrange(from as int, to as int),
                ) == Err::<Seq<char>, Error>(e),
            },
    {
        let (a, b) = trim_bounds(content, from, to);
        if a == b {
            assert(content@.subrange(a as int, b as int).len() == 0);
            Err(Error::EmptyTag)
        } else {
            assert(content@.subrange(a as int, b as int).len() == b - a);
            Ok((a, b))
        }
    }

    /// Adds the partial named in `content[from..]`.
    fn add_partial(&mut self, content: &Vec<char>, from: usize, tag: String) -> (r: Result<
        (),
        Error,
    >)
        requires
            old(self)@.wf(),
            from <= content@.len(),
        ensures
            match old(self)@.add_partial(content@.skip(from as int), tag@) {
                Ok(m) => r is Ok && final(self)@ == m && m.wf() && m.src == old(self)@.src
                    && m.pos >= old(self)@.pos && m.state == old(self)@.state,
                Err(e) => r == Err::<(), Error>(e),
            },
    {
        assert(content@.skip(from as int) =~= content@.subrange(
            from as int,
            content@.len() as int,
        ));
        let indent = match self.classify_token() {
            TokenClass::Normal => {
                self.settle(false);
                String::new()
            },
            TokenClass::StandAlone => {
                self.skip_newline();
                self.settle(true);
                String::new()
            },
            TokenClass::WhiteSpace(s, pos) => {
                self.skip_newline();
                let chars = to_chars(s.as_str());
                let ws = string_from(&chars, pos, chars.len());
                self.trim_last(&s, pos);
                self.settle(true);
                assert(ws@ =~= s@.skip(pos as int));
                ws
            },
            TokenClass::NewLineWhiteSpace(_, _) => String::new(),
        };
        let (a, b) = match Self::check_content(content, from, content.len()) {
            Ok(bounds) => bounds,
            Err(e) => {
                return Err(e);
            },
        };
        let name = string_from(content, a, b);
        let name2 = name.clone();
        let ghost before = tokens_view(self.tokens@);
        let ghost before_partials = strings_view(self.partials@);
        self.tokens.push(Token::Partial(name, indent, tag));
        self.partials.push(name2);
        assert(tokens_view(self.tokens@) =~= before.push(
            TokenView::Partial(name@, indent@, tag@),
        ));
        assert(strings_view(self.partials@) =~= before_partials.push(name@));
        Ok(())
    }

    /// Adds the interpolation of the name in `content[from..to]`.
    fn add_value_tag(
        &mut self,
        content: &Vec<char>,
        from: usize,
        to: usize,
        escaped: bool,
        tag: String,
    ) -> (r: Result<(), Error>)
        requires
            old(self)@.wf(),
            from <= to <= content@.len(),
        ensures
            match old(self)@.add_value_tag(
                content@.subrange(from as int, to as int),
                escaped,
                tag@,
            ) {
                Ok(m) => r is Ok && final(self)@ == m && m.wf(),
                Err(e) => r == Err::<(), Error>(e),
            },
    {
        let (a, b) = match Self::check_content(content, from, to) {
            Ok(bounds) => bounds,
            Err(e) => {
                return Err(e);
            },
        };
        let path = split_path(content, a, b);
        self.settle(false);
        let ghost before = tokens_view(self.tokens@);
        if escaped {
            self.tokens.push(Token::EscapedTag(path, tag));
            assert(tokens_view(self.tokens@) =~= before.push(
                TokenView::EscapedTag(strings_view(path@), tag@),
            ));
        } else {
            self.tokens.push(Token::UnescapedTag(path, tag));
            assert(tokens_view(self.tokens@) =~= before.push(
                TokenView::UnescapedTag(strings_view(path@), tag@),
            ));
        }
        Ok(())
    }

    /// Folds the tokens since the last open section into a section named `name`.
    fn close_section(&mut self, name: Vec<String>, tag: String) -> (r: Result<(), Error>)
        requires
            old(self)@.wf(),
        ensures
            match old(self)@.close_section(strings_view(name@), tag@) {
                Ok(m) => r is Ok && final(self)@ == m && m.wf(),
                Err(e) => r == Err::<(), Error>(e),
            },
    {
        let ghost before = tokens_view(self.tokens@);
        let n = self.tokens.len();
        let mut i: usize = n;
        while i > 0 && !is_incomplete(&self.tokens[i - 1])
            invariant
                0 <= i <= n == self.tokens@.len(),
                before == tokens_view(self.tokens@),
                forall|j: int| i <= j < n ==> !(#[trigger] before[j] is IncompleteSection),
            decreases i,
        {
            i -= 1;
        }
        proof {
            lemma_last_open(before, i as int);
        }
        if i == 0 {
            return Err(Error::StrayClose);
        }
        let children = self.tokens.split_off(i);
        let open = self.tokens.pop();
        assert(tokens_view(children@) =~= before.subrange(i as int, n as int));
        assert(tokens_view(self.tokens@) =~= before.take(i - 1));
        match open {
            Some(Token::IncompleteSection(section_name, inverted, osection, _)) => {
                assert(before[i - 1] == TokenView::IncompleteSection(
                    strings_view(section_name@),
                    inverted,
                    osection@,
                    before[i - 1]->IncompleteSection_3,
                ));
                if same_path(&section_name, &name) {
                    let src = collect_source(&children);
                    let otag = from_chars(&self.otag);
                    let ctag = from_chars(&self.ctag);
                    let ghost kept = tokens_view(self.tokens@);
                    let section = Token::Section(
                        name,
                        inverted,
                        children,
                        otag,
                        osection,
                        src,
                        tag,
                        ctag,
                    );
                    proof {
                        crate::token::lemma_section_children(section);
                        assert(section@ == TokenView::Section(
                            strings_view(name@),
                            inverted,
                            tokens_view(children@),
                            otag@,
                            osection@,
                            src@,
                            tag@,
                            ctag@,
                        ));
                    }
                    self.tokens.push(section);
                    assert(tokens_view(self.tokens@) =~= kept.push(section@));
                    Ok(())
                } else {
                    Err(Error::UnclosedSection)
                }
            },
            _ => Err(Error::StrayClose),
        }
    }

    /// Reads the new delimiters out of `content[k..]`, a delimiter change
    /// with its sigil at `k`, and puts them into force.
    fn change_delimiters(&mut self, content: &Vec<char>, k: usize) -> (r: Result<(), Error>)
        requires
            old(self)@.wf(),
            k < content@.len(),
        ensures
            match old(self)@.change_delimiters(content@.skip(k as int)) {
                Ok(m) => r is Ok && final(self)@ == m && ParserModel {
                    state: ParserState::Text,
                    ..m
                }.wf(),
                Err(e) => r == Err::<(), Error>(e),
            },
    {
        let len = content.len();
        let ghost tail = content@.skip(k as int);
        if !(len - k > 2 && content[len - 1] == '=') {
            return Err(Error::BadDelimiterChange);
        }
        assert(tail.subrange(1, tail.len() - 1) =~= content@.subrange(k + 1, len - 1));
        let (a, b) = match Self::check_content(content, k + 1, len - 1) {
            Ok(bounds) => bounds,
            Err(e) => {
                return Err(e);
            },
        };
        let ghost inner = content@.subrange(a as int, b as int);
        let mut p: usize = a;
        while p < b && !is_whitespace(content[p])
            invariant
                a <= p <= b <= content@.len(),
                forall|j: int| a <= j < p ==> !is_whitespace_spec(#[trigger] content@[j]),
            decreases b - p,
        {
            p += 1;
        }
        proof {
            assert forall|j: int| 0 <= j < p - a implies !is_whitespace_spec(
                #[trigger] inner[j],
            ) by {
                assert(inner[j] == content@[a + j]);
            }
            lemma_first_ws(inner, p - a);
        }
        if p == b {
            return Err(Error::BadDelimiterChange);
        }
        let ghost rest = inner.skip(p - a);
        let mut q: usize = p;
        while q < b && is_whitespace(content[q])
            invariant
                p <= q <= b <= content@.len(),
                forall|j: int| p <= j < q ==> is_whitespace_spec(#[trigger] content@[j]),
            decreases b - q,
        {
            q += 1;
        }
        proof {
            assert forall|j: int| 0 <= j < q - p implies is_whitespace_spec(#[trigger] rest[j]) by {
                assert(rest[j] == content@[p + j]);
            }
            if q < b {
                assert(rest[q - p] == content@[q as int]);
            }
            lemma_leading_ws(rest, q - p);
        }
        if q == b {
            return Err(Error::BadDelimiterChange);
        }
        self.otag = slice_chars(content, a, p);
        self.ctag = slice_chars(content, q, b);
        proof {
            assert(self.otag@ =~= inner.take(p - a));
            assert(self.ctag@ =~= rest.skip(q - p));
        }
        Ok(())
    }

    /// Opens the section named in `content[from..]`.
    fn open_section(&mut self, content: &Vec<char>, from: usize, inverted: bool, tag: String)
        -> (r: Result<(), Error>)
        requires
            old(self)@.wf(),
            from <= content@.len(),
        ensures
            match old(self)@.open_section(content@.skip(from as int), inverted, tag@) {
                Ok(m) => r is Ok && final(self)@ == m && m.wf() && m.src == old(self)@.src
                    && m.pos >= old(self)@.pos && m.state == old(self)@.state,
                Err(e) => r == Err::<(), Error>(e),
            },
    {
        assert(content@.skip(from as int) =~= content@.subrange(
            from as int,
            content@.len() as int,
        ));
        let newlined = self.eat_whitespace();
        let (a, b) = match Self::check_content(content, from, content.len()) {
            Ok(bounds) => bounds,
            Err(e) => {
                return Err(e);
            },
        };
        let name = split_path(content, a, b);
        let ghost before = tokens_view(self.tokens@);
        self.tokens.push(Token::IncompleteSection(name, inverted, tag, newlined));
        assert(tokens_view(self.tokens@) =~= before.push(
            TokenView::IncompleteSection(strings_view(name@), inverted, tag@, newlined),
        ));
        Ok(())
    }

    /// Closes the section named in `content[from..]`.
    fn end_section(&mut self, content: &Vec<char>, from: usize, tag: String) -> (r: Result<
        (),
        Error,
    >)
        requires
            old(self)@.wf(),
            from <= content@.len(),
        ensures
            match old(self)@.end_section(content@.skip(from as int), tag@) {
                Ok(m) => r is Ok && final(self)@ == m && m.wf() && m.src == old(self)@.src
                    && m.pos >= old(self)@.pos && m.state == old(self)@.state,
                Err(e) => r == Err::<(), Error>(e),
            },
    {
        assert(content@.skip(from as int) =~= content@.subrange(
            from as int,
            content@.len() as int,
        ));
        self.eat_whitespace();
        let (a, b) = match Self::check_content(content, from, content.len()) {
            Ok(bounds) => bounds,
            Err(e) => {
                return Err(e);
            },
        };
        let name = split_path(content, a, b);
        self.close_section(name, tag)
    }

    /// Acts on the tag `content` by its sigil, which stands at `k`.
    fn dispatch(&mut self, content: &Vec<char>, k: usize, tag: String) -> (r: Result<(), Error>)
        requires
            old(self)@.wf(),
            k < content@.len(),
        ensures
            match old(self)@.dispatch(content@, k as nat, tag@) {
                Ok(m) => r is Ok && final(self)@ == m && ParserModel {
                    state: ParserState::Text,
                    ..m
                }.wf() && m.src == old(self)@.src && m.pos >= old(self)@.pos,
                Err(e) => r == Err::<(), Error>(e),
            },
    {
        let len = content.len();
        let sigil = content[k];
        let ghost tail = content@.skip(k as int);
        let ghost rest = tail.skip(1);
        proof {
            reveal(ParserModel::dispatch);
            assert(tail[0] == sigil);
            assert(tail.last() == content@[len - 1]);
            assert(rest =~= content@.subrange(k + 1, len as int));
            assert(rest =~= content@.skip(k + 1));
        }
        if sigil == '!' {
            self.eat_whitespace();
            Ok(())
        } else if sigil == '&' {
            self.add_value_tag(content, k + 1, len, false, tag)
        } else if sigil == '{' {
            if content[len - 1] == '}' {
                assert(tail.subrange(1, tail.len() - 1) =~= content@.subrange(k + 1, len - 1));
                self.add_value_tag(content, k + 1, len - 1, false, tag)
            } else {
                Err(Error::UnbalancedTripleMustache)
            }
        } else if sigil == '#' {
            self.open_section(content, k + 1, false, tag)
        } else if sigil == '^' {
            self.open_section(content, k + 1, true, tag)
        } else if sigil == '/' {
            self.end_section(content, k + 1, tag)
        } else if sigil == '>' {
            self.add_partial(content, k + 1, tag)
        } else if sigil == '=' {
            self.eat_whitespace();
            self.change_delimiters(content, k)
        } else {
            assert(content@.subrange(0, len as int) =~= content@);
            self.add_value_tag(content, 0, len, true, tag)
        }
    }

    /// Handles the tag that the current character closes.
    fn add_tag(&mut self) -> (r: Result<(), Error>)
        requires
            old(self)@.wf(),
        ensures
            match old(self)@.add_tag() {
                Ok(m) => r is Ok && final(self)@ == m && ParserModel {
                    state: ParserState::Text,
                    ..m
                }.wf() && m.src == old(self)@.src && m.pos >= old(self)@.bump().pos,
                Err(e) => r == Err::<(), Error>(e),
            },
    {
        let ghost start = self@;
        self.bump();
        let mut tag = from_chars(&self.otag);
        append_chars(&mut tag, &self.content);
        append_chars(&mut tag, &self.ctag);
        let mut content: Vec<char> = Vec::new();
        std::mem::swap(&mut content, &mut self.content);
        let len = content.len();
        let mut k: usize = 0;
        while k < len && is_whitespace(content[k])
            invariant
                0 <= k <= len == content@.len(),
                forall|j: int| 0 <= j < k ==> is_whitespace_spec(#[trigger] content@[j]),
            decreases len - k,
        {
            k += 1;
        }
        proof {
            lemma_leading_ws(content@, k as int);
            assert(self@ == ParserModel { content: Seq::empty(), ..start.bump() });
        }
        if k == len {
            return Err(Error::EmptyTag);
        }
        self.dispatch(&content, k, tag)
    }

    /// Handles the current character.
    fn step(&mut self) -> (r: Result<(), Error>)
        requires
            old(self)@.wf(),
            !old(self)@.eof(),
        ensures
            match old(self)@.step() {
                Ok(m) => r is Ok && final(self)@ == m && m.wf() && m.src == old(self)@.src
                    && m.pos > old(self)@.pos,
                Err(e) => r == Err::<(), Error>(e),
            },
    {
        let ch = self.src[self.pos];
        match self.state {
            ParserState::Text => {
                if ch == self.otag[0] {
                    if self.otag.len() > 1 {
                        self.tag_position = 1;
                        self.state = ParserState::OTag;
                    } else {
                        self.add_text();
                        self.state = ParserState::Tag;
                    }
                } else {
                    self.content.push(ch);
                }
                self.bump();
                Ok(())
            },
            ParserState::OTag => {
                if ch == self.otag[self.tag_position] {
                    if self.tag_position == self.otag.len() - 1 {
                        self.add_text();
                        self.curly = false;
                        self.state = ParserState::Tag;
                    } else {
                        self.tag_position = self.tag_position + 1;
                    }
                } else {
                    self.state = ParserState::Text;
                    self.not_otag();
                    self.content.push(ch);
                }
                self.bump();
                Ok(())
            },
            ParserState::Tag => {
                if self.content.len() == 0 && ch == '{' {
                    self.curly = true;
                    self.content.push(ch);
                    self.bump();
                    Ok(())
                } else if self.curly && ch == '}' {
                    self.curly = false;
                    self.content.push(ch);
                    self.bump();
                    Ok(())
                } else if ch == self.ctag[0] {
                    if self.ctag.len() > 1 {
                        self.tag_position = 1;
                        self.state = ParserState::CTag;
                        self.bump();
                        Ok(())
                    } else {
                        match self.add_tag() {
                            Ok(()) => {
                                self.state = ParserState::Text;
                                Ok(())
                            },
                            Err(e) => Err(e),
                        }
                    }
                } else {
                    self.content.push(ch);
                    self.bump();
                    Ok(())
                }
            },
            ParserState::CTag => {
                if ch == self.ctag[self.tag_position] {
                    if self.tag_position == self.ctag.len() - 1 {
                        match self.add_tag() {
                            Ok(()) => {
                                self.state = ParserState::Text;
                                Ok(())
                            },
                            Err(e) => Err(e),
                        }
                    } else {
                        self.tag_position = self.tag_position + 1;
                        self.bump();
                        Ok(())
                    }
                } else {
                    Err(Error::UnbalancedTripleMustache)
                }
            },
        }
    }

    /// Reads the whole template and returns its tokens together with the
    /// names of the partials it refers to.
    pub fn parse(self) -> (r: Result<(Vec<Token>, Vec<String>), Error>)
        requires
            self.wf(),
        ensures
            match self@.run() {
                Err(e) => r == Err::<(Vec<Token>, Vec<String>), Error>(e),
                Ok(m) => match m.finish() {
                    Err(e) => r == Err::<(Vec<Token>, Vec<String>), Error>(e),
                    Ok((tokens, partials)) => r matches Ok((t, p)) && tokens_view(t@) == tokens
                        && strings_view(p@) == partials,
                },
            },
    {
        let mut parser = self;
        while !parser.eof()
            invariant
                parser@.wf(),
                parser@.run() == self@.run(),
            decreases parser@.src.len() - parser@.pos,
        {
            let ghost before = parser@;
            match parser.step() {
                Ok(()) => {
                    assert(before.run() == parser@.run());
                },
                Err(e) => {
                    assert(before.run() == Err::<ParserModel, Error>(e));
                    return Err(e);
                },
            }
        }
        assert(parser@.run() == Ok::<ParserModel, Error>(parser@));
        let ghost m = parser@;
        match parser.state {
            ParserState::Text => {
                parser.add_text();
            },
            ParserState::OTag => {
                parser.not_otag();
                parser.add_text();
            },
            ParserState::Tag => {
                return Err(Error::UnclosedTag);
            },
            ParserState::CTag => {
                parser.not_ctag();
                parser.add_text();
            },
        }
        let ghost tv = tokens_view(parser.tokens@);
        let ghost pv = strings_view(parser.partials@);
        let mut i: usize = 0;
        while i < parser.tokens.len()
            invariant
                0 <= i <= parser.tokens@.len(),
                tv == tokens_view(parser.tokens@),
                forall|j: int| 0 <= j < i ==> !(#[trigger] tv[j] is IncompleteSection),
                self@.run() == Ok::<ParserModel, Error>(m),
                m.finish() == (if last_open(tv) >= 0 {
                    Err::<(Seq<TokenView>, Seq<Seq<char>>), Error>(Error::UnclosedSection)
                } else {
                    Ok::<(Seq<TokenView>, Seq<Seq<char>>), Error>((tv, pv))
                }),
            decreases parser.tokens@.len() - i,
        {
            if is_incomplete(&parser.tokens[i]) {
                proof {
                    lemma_has_open(tv, i as int);
                }
                return Err(Error::UnclosedSection);
            }
            i += 1;
        }
        proof {
            lemma_last_open(tv, 0);
        }
        Ok((parser.tokens, parser.partials))
    }
}

pub proof fn lemma_has_open(ts: Seq<TokenView>, i: int)
    requires
        0 <= i < ts.len(),
        ts[i] is IncompleteSection,
    ensures
        last_open(ts) >= i,
    decreases ts.len(),
{
    if !(ts.last() is IncompleteSection) {
        lemma_has_open(ts.drop_last(), i);
    }
}

/// Parses the template `src` with the delimiters `otag` and `ctag`.
pub fn parse_template(src: Vec<char>, otag: &str, ctag: &str) -> (r: Result<
    (Vec<Token>, Vec<String>),
    Error,
>)
    ensures
        match parse_spec(src@, otag@, ctag@) {
            Err(e) => r == Err::<(Vec<Token>, Vec<String>), Error>(e),
            Ok((tokens, partials)) => r matches Ok((t, p)) && tokens_view(t@) == tokens
                && strings_view(p@) == partials,
        },
{
    match Parser::new(src, otag, ctag) {
        Err(e) => Err(e),
        Ok(parser) => parser.parse(),
    }
}

} // verus!
