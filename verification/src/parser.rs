//! Parsing `SELECT` statements from tokens.

use vstd::prelude::*;
use crate::query::{Identifier, Filter};

verus! {

/// A token of a query.
#[derive(Debug, PartialEq, Eq, Clone)]
pub enum Token {
    Keyword(String),
    Identifier(String),
    Literal(String),
    Punctuation(char),
    Operator(char),
    Comment(String),
    Whitespace,
    Error(String),
    EOF,
}

/// A token with its text as a sequence of characters.
pub enum TokenView {
    Keyword(Seq<char>),
    Identifier(Seq<char>),
    Literal(Seq<char>),
    Punctuation(char),
    Operator(char),
    Comment(Seq<char>),
    Whitespace,
    Error(Seq<char>),
    EOF,
}

impl View for Token {
    type V = TokenView;

    open spec fn view(&self) -> TokenView {
        match self {
            Token::Keyword(s) => TokenView::Keyword(s@),
            Token::Identifier(s) => TokenView::Identifier(s@),
            Token::Literal(s) => TokenView::Literal(s@),
            Token::Punctuation(c) => TokenView::Punctuation(*c),
            Token::Operator(c) => TokenView::Operator(*c),
            Token::Comment(s) => TokenView::Comment(s@),
            Token::Whitespace => TokenView::Whitespace,
            Token::Error(s) => TokenView::Error(s@),
            Token::EOF => TokenView::EOF,
        }
    }
}

/// A parsed statement.
#[derive(Debug, Clone)]
pub enum ASTNode {
    SelectStatement { projection: Vec<Identifier>, table: String, filter: Option<Filter> },
}

/// A `SELECT` statement: the projected column names, the table, and the
/// column and value of the `WHERE` condition, if any.
pub struct SelectView {
    pub projection: Seq<Seq<char>>,
    pub table: Seq<char>,
    pub filter: Option<(Seq<char>, Seq<char>)>,
}

impl View for ASTNode {
    type V = SelectView;

    open spec fn view(&self) -> SelectView {
        match self {
            ASTNode::SelectStatement { projection, table, filter } => SelectView {
                projection: projection@.map_values(|i: Identifier| i.0@),
                table: table@,
                filter: match filter {
                    Some(f) => Some((f.column@, f.value@)),
                    None => None,
                },
            },
        }
    }
}

/// Why a statement does not parse, with the token found instead.
#[derive(Debug, Clone, PartialEq, Eq)]
pub enum ParseError {
    ExpectedSelect(Token),
    UnexpectedInProjection(Token),
    ExpectedFrom(Token),
    ExpectedTableName(Token),
    ExpectedColumnName(Token),
    ExpectedEquals(Token),
    ExpectedValue(Token),
}

/// A parse error with its token as a `TokenView`.
pub enum ParseErrorView {
    ExpectedSelect(TokenView),
    UnexpectedInProjection(TokenView),
    ExpectedFrom(TokenView),
    ExpectedTableName(TokenView),
    ExpectedColumnName(TokenView),
    ExpectedEquals(TokenView),
    ExpectedValue(TokenView),
}

impl View for ParseError {
    type V = ParseErrorView;

    open spec fn view(&self) -> ParseErrorView {
        match self {
            ParseError::ExpectedSelect(t) => ParseErrorView::ExpectedSelect(t@),
            ParseError::UnexpectedInProjection(t) => ParseErrorView::UnexpectedInProjection(t@),
            ParseError::ExpectedFrom(t) => ParseErrorView::ExpectedFrom(t@),
            ParseError::ExpectedTableName(t) => ParseErrorView::ExpectedTableName(t@),
            ParseError::ExpectedColumnName(t) => ParseErrorView::ExpectedColumnName(t@),
            ParseError::ExpectedEquals(t) => ParseErrorView::ExpectedEquals(t@),
            ParseError::ExpectedValue(t) => ParseErrorView::ExpectedValue(t@),
        }
    }
}

/// `c` is `w`, or its ASCII capital; `w` is a lower-case ASCII letter.
pub open spec fn char_lower_is(c: char, w: char) -> bool {
    c == w || ('A' <= c <= 'Z' && c as u32 + 32 == w as u32)
}

/// Lower-casing `kw` gives `word`, a lower-case ASCII word. For the keywords
/// `select`, `from` and `where` this is what Unicode lower-casing does: no
/// other character lower-cases to a letter of them.
pub open spec fn lowercases_to(kw: Seq<char>, word: Seq<char>) -> bool {
    &&& kw.len() == word.len()
    &&& forall|i: int| 0 <= i < kw.len() ==> char_lower_is(#[trigger] kw[i], word[i])
}

/// `t` is the keyword `word`, in any case.
pub open spec fn is_keyword(t: TokenView, word: Seq<char>) -> bool {
    match t {
        TokenView::Keyword(k) => lowercases_to(k, word),
        _ => false,
    }
}

/// The token at `i`, or `EOF` past the end.
pub open spec fn tok_at(ts: Seq<TokenView>, i: int) -> TokenView {
    if 0 <= i < ts.len() {
        ts[i]
    } else {
        TokenView::EOF
    }
}

/// The position after reading a token at `i`: reading past the end stays put.
pub open spec fn after(ts: Seq<TokenView>, i: int) -> int {
    if i < ts.len() {
        i + 1
    } else {
        i
    }
}

/// A comma-separated list of column names ended by `FROM`, read from `i` on,
/// with the names `acc` already read: the names and the position after `FROM`.
pub open spec fn spec_projection(ts: Seq<TokenView>, i: int, acc: Seq<Seq<char>>) -> (Result<Seq<Seq<char>>, ParseErrorView>, int)
    decreases ts.len() - i,
{
    if i < 0 || i >= ts.len() {
        (Err(ParseErrorView::UnexpectedInProjection(TokenView::EOF)), i)
    } else {
        match ts[i] {
            TokenView::Identifier(name) => spec_projection(ts, i + 1, acc.push(name)),
            TokenView::Punctuation(c) => if c == ',' {
                spec_projection(ts, i + 1, acc)
            } else {
                (Err(ParseErrorView::UnexpectedInProjection(ts[i])), i + 1)
            },
            TokenView::Keyword(k) => if lowercases_to(k, "from"@) {
                (Ok(acc), i + 1)
            } else {
                (Err(ParseErrorView::UnexpectedInProjection(ts[i])), i + 1)
            },
            _ => (Err(ParseErrorView::UnexpectedInProjection(ts[i])), i + 1),
        }
    }
}

/// `*`, or a list of column names, followed by `FROM`.
pub open spec fn spec_select_list(ts: Seq<TokenView>, i: int) -> (Result<Seq<Seq<char>>, ParseErrorView>, int) {
    if tok_at(ts, i) == TokenView::Operator('*') {
        let j = after(ts, i);
        let t = tok_at(ts, j);
        if is_keyword(t, "from"@) {
            (Ok(seq!["*"@]), after(ts, j))
        } else {
            (Err(ParseErrorView::ExpectedFrom(t)), after(ts, j))
        }
    } else {
        spec_projection(ts, i, Seq::empty())
    }
}

/// The condition after `WHERE`: a column name, `=`, and a name or literal.
pub open spec fn spec_where(ts: Seq<TokenView>, i: int) -> (Result<(Seq<char>, Seq<char>), ParseErrorView>, int) {
    let t1 = tok_at(ts, i);
    let i1 = after(ts, i);
    match t1 {
        TokenView::Identifier(column) => {
            let t2 = tok_at(ts, i1);
            let i2 = after(ts, i1);
            if t2 == TokenView::Operator('=') {
                let t3 = tok_at(ts, i2);
                let i3 = after(ts, i2);
                match t3 {
                    TokenView::Identifier(v) => (Ok((column, v)), i3),
                    TokenView::Literal(v) => (Ok((column, v)), i3),
                    _ => (Err(ParseErrorView::ExpectedValue(t3)), i3),
                }
            } else {
                (Err(ParseErrorView::ExpectedEquals(t2)), i2)
            }
        },
        _ => (Err(ParseErrorView::ExpectedColumnName(t1)), i1),
    }
}

/// A `SELECT` statement read from `i0` on: the statement or the error, and
/// the position reading stopped at.
pub open spec fn spec_parse(ts: Seq<TokenView>, i0: int) -> (Result<SelectView, ParseErrorView>, int) {
    let t0 = tok_at(ts, i0);
    let i1 = after(ts, i0);
    if !is_keyword(t0, "select"@) {
        (Err(ParseErrorView::ExpectedSelect(t0)), i1)
    } else {
        let (names, i2) = spec_select_list(ts, i1);
        match names {
            Err(e) => (Err(e), i2),
            Ok(projection) => {
                let tt = tok_at(ts, i2);
                let i3 = after(ts, i2);
                match tt {
                    TokenView::Identifier(table) => if is_keyword(tok_at(ts, i3), "where"@) {
                        let (cond, i4) = spec_where(ts, after(ts, i3));
                        match cond {
                            Ok(f) => (Ok(SelectView { projection, table, filter: Some(f) }), i4),
                            Err(e) => (Err(e), i4),
                        }
                    } else {
                        (Ok(SelectView { projection, table, filter: None }), i3)
                    },
                    _ => (Err(ParseErrorView::ExpectedTableName(tt)), i3),
                }
            },
        }
    }
}

/// A parse result with its statement or error by its view.
pub open spec fn result_view<T: View>(r: Result<T, ParseError>) -> Result<T::V, ParseErrorView> {
    match r {
        Ok(v) => Ok(v@),
        Err(e) => Err(e@),
    }
}

/// Lower-casing `kw` gives `word`, a lower-case ASCII word.
fn keyword_is(kw: &str, word: &str) -> (r: bool)
    ensures
        r == lowercases_to(kw@, word@),
{
    let n = kw.unicode_len();
    if n != word.unicode_len() {
        return false;
    }
    let mut i: usize = 0;
    while i < n
        invariant
            n == kw@.len(),
            n == word@.len(),
            i <= n,
            forall|j: int| 0 <= j < i ==> char_lower_is(#[trigger] kw@[j], word@[j]),
        decreases n - i,
    {
        let c = kw.get_char(i);
        let w = word.get_char(i);
        if !(c == w || ('A' <= c && c <= 'Z' && (c as u32) + 32 == (w as u32))) {
            return false;
        }
        i += 1;
    }
    true
}

/// A copy of `t`.
fn copy_token(t: &Token) -> (r: Token)
    ensures
        r@ == t@,
{
    match t {
        Token::Keyword(s) => Token::Keyword(s.clone()),
        Token::Identifier(s) => Token::Identifier(s.clone()),
        Token::Literal(s) => Token::Literal(s.clone()),
        Token::Punctuation(c) => Token::Punctuation(*c),
        Token::Operator(c) => Token::Operator(*c),
        Token::Comment(s) => Token::Comment(s.clone()),
        Token::Whitespace => Token::Whitespace,
        Token::Error(s) => Token::Error(s.clone()),
        Token::EOF => Token::EOF,
    }
}

/// A reader of a `SELECT` statement from a list of tokens.
pub struct Parser {
    tokens: Vec<Token>,
    current_index: usize,
}

impl Parser {
    /// The tokens being read.
    pub closed spec fn tokens(&self) -> Seq<TokenView> {
        self.tokens@.map_values(|t: Token| t@)
    }

    /// The position of the next token to read.
    pub closed spec fn position(&self) -> int {
        self.current_index as int
    }

    /// The position lies within the tokens.
    pub closed spec fn wf(&self) -> bool {
        self.current_index <= self.tokens@.len()
    }

    /// A parser reading `tokens` from the first.
    pub fn new(tokens: Vec<Token>) -> (p: Self)
        ensures
            p.wf(),
            p.tokens() == tokens@.map_values(|t: Token| t@),
            p.position() == 0,
    {
        Parser { tokens, current_index: 0 }
    }

    /// Reads a `SELECT` statement: gives what `spec_parse` gives and stops
    /// where it stops.
    pub fn parse(&mut self) -> (r: Result<ASTNode, ParseError>)
        requires
            old(self).wf(),
        ensures
            final(self).wf(),
            final(self).tokens() == old(self).tokens(),
            (result_view(r), final(self).position()) == spec_parse(old(self).tokens(), old(self).position()),
    {
        self.parse_select_statement()
    }

    fn parse_select_statement(&mut self) -> (r: Result<ASTNode, ParseError>)
        requires
            old(self).wf(),
        ensures
            final(self).wf(),
            final(self).tokens() == old(self).tokens(),
            (result_view(r), final(self).position()) == spec_parse(old(self).tokens(), old(self).position()),
    {
        let ghost ts = self.tokens();
        let first = self.next_token();
        let is_select = match &first {
            Token::Keyword(kw) => keyword_is(kw.as_str(), "select"),
            _ => false,
        };
        if !is_select {
            return Err(ParseError::ExpectedSelect(first));
        }
        let ghost i1 = self.position();
        let mut projection: Vec<Identifier> = Vec::new();
        // handle SELECT *
        let star = match self.peek_token() {
            Token::Operator(c) => c == '*',
            _ => false,
        };
        if star {
            self.next_token();
            projection.push(Identifier(String::from_str("*")));
        } else {
            projection = self.parse_projection()?;
        }
        proof {
            if !star {
                lemma_projection_ends_with_from(ts, i1, Seq::empty());
            }
        }
        // if the projection did not end at FROM, read it now
        let prev = self.current_index - 1;
        let prev_is_from = match &self.tokens[prev] {
            Token::Keyword(kw) => keyword_is(kw.as_str(), "from"),
            _ => false,
        };
        if !prev_is_from {
            let t = self.next_token();
            let is_from = match &t {
                Token::Keyword(kw) => keyword_is(kw.as_str(), "from"),
                _ => false,
            };
            if !is_from {
                return Err(ParseError::ExpectedFrom(t));
            }
        }
        proof {
            assert(projection@.map_values(|i: Identifier| i.0@) =~= spec_select_list(ts, i1).0->Ok_0);
        }
        let t = self.next_token();
        let table = match t {
            Token::Identifier(name) => name,
            other => return Err(ParseError::ExpectedTableName(other)),
        };
        // check for a WHERE clause
        let is_where = match self.peek_token() {
            Token::Keyword(kw) => keyword_is(kw.as_str(), "where"),
            _ => false,
        };
        let filter = if is_where {
            self.next_token();
            Some(self.parse_where_clause()?)
        } else {
            None
        };
        Ok(ASTNode::SelectStatement { projection, table, filter })
    }

    /// Reads column names up to `FROM`.
    fn parse_projection(&mut self) -> (r: Result<Vec<Identifier>, ParseError>)
        requires
            old(self).wf(),
        ensures
            final(self).wf(),
            final(self).tokens() == old(self).tokens(),
            (match r {
                Ok(v) => Ok(v@.map_values(|i: Identifier| i.0@)),
                Err(e) => Err(e@),
            }, final(self).position()) == spec_projection(old(self).tokens(), old(self).position(), Seq::empty()),
    {
        let ghost ts = self.tokens();
        let ghost i0 = self.position();
        let mut projection: Vec<Identifier> = Vec::new();
        proof {
            assert(projection@.map_values(|i: Identifier| i.0@) =~= Seq::<Seq<char>>::empty());
        }
        loop
            invariant
                self.wf(),
                ts == old(self).tokens(),
                i0 == old(self).position(),
                self.tokens() == ts,
                spec_projection(ts, i0, Seq::empty()) == spec_projection(ts, self.position(), projection@.map_values(|i: Identifier| i.0@)),
            decreases ts.len() - self.position() + 1,
        {
            let ghost i = self.position();
            let ghost acc = projection@.map_values(|i: Identifier| i.0@);
            let t = self.next_token();
            match t {
                Token::Identifier(name) => {
                    let ghost n = name@;
                    projection.push(Identifier(name));
                    proof {
                        assert(projection@.map_values(|i: Identifier| i.0@) =~= acc.push(n));
                    }
                },
                Token::Punctuation(c) => {
                    if c != ',' {
                        return Err(ParseError::UnexpectedInProjection(Token::Punctuation(c)));
                    }
                },
                Token::Keyword(kw) => {
                    if keyword_is(kw.as_str(), "from") {
                        return Ok(projection);
                    }
                    return Err(ParseError::UnexpectedInProjection(Token::Keyword(kw)));
                },
                other => {
                    return Err(ParseError::UnexpectedInProjection(other));
                },
            }
        }
    }

    /// Reads the condition after `WHERE`.
    fn parse_where_clause(&mut self) -> (r: Result<Filter, ParseError>)
        requires
            old(self).wf(),
        ensures
            final(self).wf(),
            final(self).tokens() == old(self).tokens(),
            (match r {
                Ok(f) => Ok((f.column@, f.value@)),
                Err(e) => Err(e@),
            }, final(self).position()) == spec_where(old(self).tokens(), old(self).position()),
    {
        let column = match self.next_token() {
            Token::Identifier(name) => name,
            other => return Err(ParseError::ExpectedColumnName(other)),
        };
        let is_eq = match self.peek_token() {
            Token::Operator(c) => c == '=',
            _ => false,
        };
        let t = self.next_token();
        if !is_eq {
            return Err(ParseError::ExpectedEquals(t));
        }
        let value = match self.next_token() {
            Token::Identifier(val) => val,
            Token::Literal(val) => val,
            other => return Err(ParseError::ExpectedValue(other)),
        };
        Ok(Filter { column, value })
    }

    /// Reads the next token; past the end, gives `EOF` and stays put.
    pub fn next_token(&mut self) -> (t: Token)
        requires
            old(self).wf(),
        ensures
            final(self).wf(),
            final(self).tokens() == old(self).tokens(),
            t@ == tok_at(old(self).tokens(), old(self).position()),
            final(self).position() == after(old(self).tokens(), old(self).position()),
    {
        if self.current_index < self.tokens.len() {
            let token = copy_token(&self.tokens[self.current_index]);
            self.current_index += 1;
            token
        } else {
            Token::EOF
        }
    }

    /// The next token, without reading it.
    pub fn peek_token(&self) -> (t: Token)
        requires
            self.wf(),
        ensures
            t@ == tok_at(self.tokens(), self.position()),
    {
        if self.current_index < self.tokens.len() {
            copy_token(&self.tokens[self.current_index])
        } else {
            Token::EOF
        }
    }
}

/// A list of column names that reads successfully ends with `FROM`.
proof fn lemma_projection_ends_with_from(ts: Seq<TokenView>, i: int, acc: Seq<Seq<char>>)
    ensures
        spec_projection(ts, i, acc).0 is Ok ==> {
            let j = spec_projection(ts, i, acc).1;
            &&& 1 <= j <= ts.len()
            &&& is_keyword(ts[j - 1], "from"@)
        },
    decreases ts.len() - i,
{
    if 0 <= i < ts.len() {
        match ts[i] {
            TokenView::Identifier(name) => lemma_projection_ends_with_from(ts, i + 1, acc.push(name)),
            TokenView::Punctuation(c) => if c == ',' {
                lemma_projection_ends_with_from(ts, i + 1, acc);
            },
            _ => {},
        }
    }
}


/// The code of `c`, lower-cased if `c` is an ASCII capital.
pub open spec fn fold_code(c: char) -> u32 {
    if 'A' <= c <= 'Z' { (c as u32 + 32) as u32 } else { c as u32 }
}

/// Two tokens are the same but for the case of the ASCII letters of a
/// keyword.
pub open spec fn alike(a: TokenView, b: TokenView) -> bool {
    ||| a == b
    ||| a matches TokenView::Keyword(k1) && b matches TokenView::Keyword(k2) && k1.len() == k2.len()
        && forall|i: int| 0 <= i < k1.len() ==> #[trigger] fold_code(k1[i]) == fold_code(k2[i])
}

/// Two token lists are alike token by token.
pub open spec fn alike_tokens(ts: Seq<TokenView>, us: Seq<TokenView>) -> bool {
    &&& ts.len() == us.len()
    &&& forall|i: int| 0 <= i < ts.len() ==> #[trigger] alike(ts[i], us[i])
}

/// Two parse outcomes agree: both succeed with the same statement, or both
/// fail, and reading stops at the same position.
pub open spec fn same_outcome<T>(a: (Result<T, ParseErrorView>, int), b: (Result<T, ParseErrorView>, int)) -> bool {
    &&& a.1 == b.1
    &&& (a.0 is Ok <==> b.0 is Ok)
    &&& a.0 is Ok ==> a.0 == b.0
}

/// For a lower-case ASCII letter `w`, `c` lower-cases to `w` exactly when
/// its folded code is that of `w`.
proof fn lemma_char_lower(c: char, w: char)
    requires
        'a' <= w <= 'z',
    ensures
        char_lower_is(c, w) <==> fold_code(c) == w as u32,
{
    assert('a' as u32 == 97 && 'z' as u32 == 122 && 'A' as u32 == 65 && 'Z' as u32 == 90);
    if 'A' <= c <= 'Z' {
        assert(c as u32 <= 90 && w as u32 >= 97);
        assert(c != w);
    } else {
        if c as u32 == w as u32 {
            assert(c == w);
        }
    }
}

/// Alike tokens are the same keyword `word`, for a word of lower-case ASCII
/// letters, or neither is.
proof fn lemma_alike_keyword(a: TokenView, b: TokenView, word: Seq<char>)
    requires
        alike(a, b),
        forall|i: int| 0 <= i < word.len() ==> 'a' <= #[trigger] word[i] <= 'z',
    ensures
        is_keyword(a, word) == is_keyword(b, word),
{
    if a != b {
        if let TokenView::Keyword(k1) = a {
            if let TokenView::Keyword(k2) = b {
                assert forall|i: int| 0 <= i < k1.len() && k1.len() == word.len() implies
                    (char_lower_is(#[trigger] k1[i], word[i]) <==> fold_code(k1[i]) == word[i] as u32) by {
                    lemma_char_lower(k1[i], word[i]);
                }
                assert forall|i: int| 0 <= i < k2.len() && k2.len() == word.len() implies
                    (char_lower_is(#[trigger] k2[i], word[i]) <==> fold_code(k2[i]) == word[i] as u32) by {
                    lemma_char_lower(k2[i], word[i]);
                }
                if lowercases_to(k1, word) {
                    assert forall|i: int| 0 <= i < k2.len() implies char_lower_is(#[trigger] k2[i], word[i]) by {
                        assert(char_lower_is(k1[i], word[i]));
                        assert(fold_code(k1[i]) == fold_code(k2[i]));
                    }
                }
                if lowercases_to(k2, word) {
                    assert forall|i: int| 0 <= i < k1.len() implies char_lower_is(#[trigger] k1[i], word[i]) by {
                        assert(char_lower_is(k2[i], word[i]));
                        assert(fold_code(k1[i]) == fold_code(k2[i]));
                    }
                }
            }
        }
    }
}

/// The words `select`, `from` and `where` are made of lower-case ASCII
/// letters.
proof fn lemma_keyword_words()
    ensures
        forall|i: int| 0 <= i < "select"@.len() ==> 'a' <= #[trigger] "select"@[i] <= 'z',
        forall|i: int| 0 <= i < "from"@.len() ==> 'a' <= #[trigger] "from"@[i] <= 'z',
        forall|i: int| 0 <= i < "where"@.len() ==> 'a' <= #[trigger] "where"@[i] <= 'z',
{
    reveal_strlit("select");
    reveal_strlit("from");
    reveal_strlit("where");
}

/// Alike tokens read as the same list of column names.
proof fn lemma_projection_alike(ts: Seq<TokenView>, us: Seq<TokenView>, i: int, acc: Seq<Seq<char>>)
    requires
        alike_tokens(ts, us),
    ensures
        same_outcome(spec_projection(ts, i, acc), spec_projection(us, i, acc)),
    decreases ts.len() - i,
{
    if 0 <= i < ts.len() {
        assert(alike(ts[i], us[i]));
        lemma_keyword_words();
        lemma_alike_keyword(ts[i], us[i], "from"@);
        match ts[i] {
            TokenView::Identifier(name) => lemma_projection_alike(ts, us, i + 1, acc.push(name)),
            TokenView::Punctuation(c) => if c == ',' {
                lemma_projection_alike(ts, us, i + 1, acc);
            },
            _ => {},
        }
    }
}

/// Keywords that differ only in the case of their ASCII letters parse alike:
/// a statement read from tokens parses exactly when it parses from alike
/// tokens, to the same statement, stopping at the same position.
pub proof fn lemma_parse_keyword_case(ts: Seq<TokenView>, us: Seq<TokenView>, i0: int)
    requires
        alike_tokens(ts, us),
    ensures
        same_outcome(spec_parse(ts, i0), spec_parse(us, i0)),
{
    lemma_keyword_words();
    assert forall|i: int| alike(#[trigger] tok_at(ts, i), tok_at(us, i)) by {
        if 0 <= i < ts.len() {
            assert(alike(ts[i], us[i]));
        }
    }
    let i1 = after(ts, i0);
    lemma_alike_keyword(tok_at(ts, i0), tok_at(us, i0), "select"@);
    if is_keyword(tok_at(ts, i0), "select"@) {
        let j = after(ts, i1);
        assert(alike(tok_at(ts, i1), tok_at(us, i1)));
        assert(alike(tok_at(ts, j), tok_at(us, j)));
        lemma_alike_keyword(tok_at(ts, j), tok_at(us, j), "from"@);
        lemma_projection_alike(ts, us, i1, Seq::empty());
        let (names, i2) = spec_select_list(ts, i1);
        assert(same_outcome(spec_select_list(ts, i1), spec_select_list(us, i1)));
        if names is Ok {
            let i3 = after(ts, i2);
            assert(alike(tok_at(ts, i2), tok_at(us, i2)));
            assert(alike(tok_at(ts, i3), tok_at(us, i3)));
            lemma_alike_keyword(tok_at(ts, i3), tok_at(us, i3), "where"@);
            let k = after(ts, i3);
            let k1 = after(ts, k);
            let k2 = after(ts, k1);
            assert(alike(tok_at(ts, k), tok_at(us, k)));
            assert(alike(tok_at(ts, k1), tok_at(us, k1)));
            assert(alike(tok_at(ts, k2), tok_at(us, k2)));
            assert(same_outcome(spec_where(ts, k), spec_where(us, k)));
        }
    }
}

/// The tokens of a projection: `*`, or a list of column names.
pub open spec fn projection_tokens(star: bool, names: Seq<Seq<char>>) -> Seq<TokenView> {
    if star {
        seq![TokenView::Operator('*')]
    } else {
        names.map_values(|n: Seq<char>| TokenView::Identifier(n))
    }
}

/// The tokens of `SELECT <projection> FROM <table> WHERE <column> = <value>`,
/// with the keywords spelled `sel`, `from` and `wh`, followed by `rest`.
pub open spec fn select_where_tokens(
    sel: Seq<char>,
    projection: Seq<TokenView>,
    from: Seq<char>,
    table: Seq<char>,
    wh: Seq<char>,
    column: Seq<char>,
    value: Seq<char>,
    rest: Seq<TokenView>,
) -> Seq<TokenView> {
    seq![TokenView::Keyword(sel)] + projection + seq![
        TokenView::Keyword(from),
        TokenView::Identifier(table),
        TokenView::Keyword(wh),
        TokenView::Identifier(column),
        TokenView::Operator('='),
        TokenView::Identifier(value),
    ] + rest
}

/// A run of column names read from position `start + k` on, with the first
/// `k` names read, gives all the names once `FROM` follows them.
proof fn lemma_projection_names(ts: Seq<TokenView>, start: int, names: Seq<Seq<char>>, from: Seq<char>, k: int)
    requires
        0 <= start,
        0 <= k <= names.len(),
        start + names.len() < ts.len(),
        forall|i: int| 0 <= i < names.len() ==> ts[start + i] == TokenView::Identifier(#[trigger] names[i]),
        ts[start + names.len()] == TokenView::Keyword(from),
        lowercases_to(from, "from"@),
    ensures
        spec_projection(ts, start + k, names.take(k)) == (Ok::<Seq<Seq<char>>, ParseErrorView>(names), start + names.len() + 1),
    decreases names.len() - k,
{
    if k < names.len() {
        assert(ts[start + k] == TokenView::Identifier(names[k]));
        assert(names.take(k).push(names[k]) =~= names.take(k + 1));
        lemma_projection_names(ts, start, names, from, k + 1);
    } else {
        assert(names.take(k) =~= names);
    }
}

/// A `WHERE` condition after the table name is read the same way whatever
/// the projection is: `SELECT * FROM t WHERE c = v` and
/// `SELECT a, b FROM t WHERE c = v` both parse with the filter `c = v`, the
/// projection `*` or the names, and the table `t`, and reading stops after
/// the value.
pub proof fn lemma_where_gives_filter(
    sel: Seq<char>,
    star: bool,
    names: Seq<Seq<char>>,
    from: Seq<char>,
    table: Seq<char>,
    wh: Seq<char>,
    column: Seq<char>,
    value: Seq<char>,
    rest: Seq<TokenView>,
)
    requires
        lowercases_to(sel, "select"@),
        lowercases_to(from, "from"@),
        lowercases_to(wh, "where"@),
    ensures
        ({
            let p = projection_tokens(star, names);
            let ts = select_where_tokens(sel, p, from, table, wh, column, value, rest);
            spec_parse(ts, 0) == (Ok::<SelectView, ParseErrorView>(SelectView {
                projection: if star { seq!["*"@] } else { names },
                table,
                filter: Some((column, value)),
            }), (1 + p.len() + 6) as int)
        }),
{
    let p = projection_tokens(star, names);
    let ts = select_where_tokens(sel, p, from, table, wh, column, value, rest);
    let q = p.len() as int;
    assert(ts[0] == TokenView::Keyword(sel));
    assert forall|i: int| 0 <= i < q implies ts[1 + i] == p[i] by {}
    assert(ts[1 + q] == TokenView::Keyword(from));
    assert(ts[2 + q] == TokenView::Identifier(table));
    assert(ts[3 + q] == TokenView::Keyword(wh));
    assert(ts[4 + q] == TokenView::Identifier(column));
    assert(ts[5 + q] == TokenView::Operator('='));
    assert(ts[6 + q] == TokenView::Identifier(value));
    assert(is_keyword(tok_at(ts, 0), "select"@));
    if star {
        assert(tok_at(ts, 1) == TokenView::Operator('*'));
        assert(is_keyword(tok_at(ts, 2), "from"@));
        assert(spec_select_list(ts, 1) == (Ok::<Seq<Seq<char>>, ParseErrorView>(seq!["*"@]), 3int));
    } else {
        assert forall|i: int| 0 <= i < names.len() implies ts[1 + i] == TokenView::Identifier(#[trigger] names[i]) by {
            assert(ts[1 + i] == p[i]);
        }
        lemma_projection_names(ts, 1, names, from, 0);
        assert(names.take(0) =~= Seq::<Seq<char>>::empty());
        if names.len() > 0 {
            assert(tok_at(ts, 1) == TokenView::Identifier(names[0]));
        } else {
            assert(tok_at(ts, 1) == TokenView::Keyword(from));
        }
        assert(spec_select_list(ts, 1) == (Ok::<Seq<Seq<char>>, ParseErrorView>(names), 2 + q));
    }
    assert(is_keyword(tok_at(ts, 3 + q), "where"@));
    assert(spec_where(ts, 4 + q) == (Ok::<(Seq<char>, Seq<char>), ParseErrorView>((column, value)), 7 + q));
}

/// Without a `WHERE` after the table name a statement has no filter:
/// `SELECT <projection> FROM <table>` followed by anything but the keyword
/// `WHERE` parses with the projection, the table, and no filter, and reading
/// stops after the table name.
pub proof fn lemma_no_where_no_filter(
    sel: Seq<char>,
    star: bool,
    names: Seq<Seq<char>>,
    from: Seq<char>,
    table: Seq<char>,
    rest: Seq<TokenView>,
)
    requires
        lowercases_to(sel, "select"@),
        lowercases_to(from, "from"@),
        !is_keyword(tok_at(rest, 0), "where"@),
    ensures
        ({
            let p = projection_tokens(star, names);
            let ts = seq![TokenView::Keyword(sel)] + p + seq![TokenView::Keyword(from), TokenView::Identifier(table)] + rest;
            spec_parse(ts, 0) == (Ok::<SelectView, ParseErrorView>(SelectView {
                projection: if star { seq!["*"@] } else { names },
                table,
                filter: None,
            }), (1 + p.len() + 2) as int)
        }),
{
    let p = projection_tokens(star, names);
    let ts = seq![TokenView::Keyword(sel)] + p + seq![TokenView::Keyword(from), TokenView::Identifier(table)] + rest;
    let q = p.len() as int;
    assert(ts[0] == TokenView::Keyword(sel));
    assert forall|i: int| 0 <= i < q implies ts[1 + i] == p[i] by {}
    assert(ts[1 + q] == TokenView::Keyword(from));
    assert(ts[2 + q] == TokenView::Identifier(table));
    assert(tok_at(ts, 3 + q) == tok_at(rest, 0)) by {
        if rest.len() > 0 {
            assert(ts[3 + q] == rest[0]);
        }
    }
    assert(is_keyword(tok_at(ts, 0), "select"@));
    if star {
        assert(tok_at(ts, 1) == TokenView::Operator('*'));
        assert(is_keyword(tok_at(ts, 2), "from"@));
        assert(spec_select_list(ts, 1) == (Ok::<Seq<Seq<char>>, ParseErrorView>(seq!["*"@]), 3int));
    } else {
        assert forall|i: int| 0 <= i < names.len() implies ts[1 + i] == TokenView::Identifier(#[trigger] names[i]) by {
            assert(ts[1 + i] == p[i]);
        }
        lemma_projection_names(ts, 1, names, from, 0);
        assert(names.take(0) =~= Seq::<Seq<char>>::empty());
        if names.len() > 0 {
            assert(tok_at(ts, 1) == TokenView::Identifier(names[0]));
        } else {
            assert(tok_at(ts, 1) == TokenView::Keyword(from));
        }
        assert(spec_select_list(ts, 1) == (Ok::<Seq<Seq<char>>, ParseErrorView>(names), 2 + q));
    }
}
} // verus!
