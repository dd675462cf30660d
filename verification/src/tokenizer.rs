//! Splitting a query string into tokens.

use vstd::prelude::*;
use crate::parser::{Token, TokenView};

verus! {

/// `c` has the Unicode `White_Space` property.
pub open spec fn is_whitespace(c: char) -> bool {
    ||| '\u{9}' <= c <= '\u{d}'
    ||| c == ' '
    ||| c == '\u{85}'
    ||| c == '\u{a0}'
    ||| c == '\u{1680}'
    ||| '\u{2000}' <= c <= '\u{200a}'
    ||| c == '\u{2028}'
    ||| c == '\u{2029}'
    ||| c == '\u{202f}'
    ||| c == '\u{205f}'
    ||| c == '\u{3000}'
}

/// The length of the run of non-whitespace characters `s` starts with.
pub open spec fn word_len(s: Seq<char>) -> nat
    decreases s.len(),
{
    if s.len() == 0 || is_whitespace(s[0]) {
        0
    } else {
        1 + word_len(s.drop_first())
    }
}

/// A run of non-whitespace characters lies within the sequence, and is not
/// empty when the sequence starts with one.
pub proof fn lemma_word_len_bound(s: Seq<char>)
    ensures
        word_len(s) <= s.len(),
        s.len() > 0 && !is_whitespace(s[0]) ==> word_len(s) >= 1,
    decreases s.len(),
{
    if s.len() > 0 && !is_whitespace(s[0]) {
        lemma_word_len_bound(s.drop_first());
    }
}

/// The maximal runs of non-whitespace characters of `s`, in order.
pub open spec fn words(s: Seq<char>) -> Seq<Seq<char>>
    decreases s.len(),
{
    if s.len() == 0 {
        Seq::empty()
    } else if is_whitespace(s[0]) {
        words(s.drop_first())
    } else {
        let n = word_len(s) as int;
        proof {
            lemma_word_len_bound(s);
        }
        seq![s.take(n)] + words(s.skip(n))
    }
}

/// Upper-casing `c` gives the upper-case ASCII letter `u`. Besides the ASCII
/// letters, the long s `ſ` upper-cases to `S`; no other character upper-cases
/// to a letter of `SELECT`, `FROM` or `WHERE`.
pub open spec fn upper_is(c: char, u: char) -> bool {
    ||| c == u
    ||| ('a' <= c <= 'z' && c as u32 == u as u32 + 32)
    ||| (u == 'S' && c == '\u{17f}')
}

/// Upper-casing `w` gives the upper-case ASCII word `word`.
pub open spec fn uppercases_to(w: Seq<char>, word: Seq<char>) -> bool {
    &&& w.len() == word.len()
    &&& forall|i: int| 0 <= i < w.len() ==> upper_is(#[trigger] w[i], word[i])
}

/// The position of the first `=` of `w`, or its length when it has none.
pub open spec fn equals_position(w: Seq<char>) -> int
    decreases w.len(),
{
    if w.len() == 0 {
        0
    } else if w[0] == '=' {
        0
    } else {
        1 + equals_position(w.drop_first())
    }
}

/// The tokens of one word: a keyword; `*` or `=` as an operator; a word
/// `a=b` with text on both sides of its first `=` as `a`, `=`, `b`; and any
/// other word as an identifier.
pub open spec fn word_tokens(w: Seq<char>) -> Seq<TokenView> {
    if uppercases_to(w, "SELECT"@) || uppercases_to(w, "FROM"@) || uppercases_to(w, "WHERE"@) {
        seq![TokenView::Keyword(w)]
    } else if w == seq!['*'] {
        seq![TokenView::Operator('*')]
    } else if w == seq!['='] {
        seq![TokenView::Operator('=')]
    } else {
        let p = equals_position(w);
        if 0 < p && p + 1 < w.len() {
            seq![TokenView::Identifier(w.take(p)), TokenView::Operator('='), TokenView::Identifier(w.skip(p + 1))]
        } else {
            seq![TokenView::Identifier(w)]
        }
    }
}

/// The tokens of a list of words.
pub open spec fn tokens_of(ws: Seq<Seq<char>>) -> Seq<TokenView>
    decreases ws.len(),
{
    if ws.len() == 0 {
        Seq::empty()
    } else {
        word_tokens(ws[0]) + tokens_of(ws.drop_first())
    }
}

/// The tokens of a query string: those of its words, then `EOF`.
pub open spec fn spec_tokenize(s: Seq<char>) -> Seq<TokenView> {
    tokens_of(words(s)).push(TokenView::EOF)
}

/// Whether `c` has the Unicode `White_Space` property.
pub fn is_whitespace_char(c: char) -> (r: bool)
    ensures
        r == is_whitespace(c),
{
    ('\u{9}' <= c && c <= '\u{d}') || c == ' ' || c == '\u{85}' || c == '\u{a0}' || c == '\u{1680}'
        || ('\u{2000}' <= c && c <= '\u{200a}') || c == '\u{2028}' || c == '\u{2029}' || c == '\u{202f}'
        || c == '\u{205f}' || c == '\u{3000}'
}


/// The length of the run of non-whitespace characters `t` starts with is `m`
/// when the first `m` characters are not whitespace and the next one is.
proof fn lemma_word_len_exact(t: Seq<char>, m: int)
    requires
        0 <= m <= t.len(),
        forall|k: int| 0 <= k < m ==> !is_whitespace(#[trigger] t[k]),
        m == t.len() || is_whitespace(t[m]),
    ensures
        word_len(t) == m,
    decreases m,
{
    if m > 0 {
        let u = t.drop_first();
        assert forall|k: int| 0 <= k < m - 1 implies !is_whitespace(#[trigger] u[k]) by {
            assert(u[k] == t[k + 1]);
        }
        if m < t.len() {
            assert(u[m - 1] == t[m]);
        }
        lemma_word_len_exact(u, m - 1);
    }
}

/// The first `=` of `w` is at `p` when none comes before `p` and `p` is the
/// end or holds one.
proof fn lemma_equals_position(w: Seq<char>, p: int)
    requires
        0 <= p <= w.len(),
        forall|k: int| 0 <= k < p ==> #[trigger] w[k] != '=',
        p == w.len() || w[p] == '=',
    ensures
        equals_position(w) == p,
    decreases p,
{
    if p > 0 {
        let u = w.drop_first();
        assert forall|k: int| 0 <= k < p - 1 implies #[trigger] u[k] != '=' by {
            assert(u[k] == w[k + 1]);
        }
        if p < w.len() {
            assert(u[p - 1] == w[p]);
        }
        lemma_equals_position(u, p - 1);
    }
}

/// The views of a list of tokens.
pub open spec fn token_views(ts: Seq<Token>) -> Seq<TokenView> {
    ts.map_values(|t: Token| t@)
}

/// Whether upper-casing `w` gives the upper-case ASCII word `word`.
fn uppercase_is(w: &str, word: &str) -> (r: bool)
    ensures
        r == uppercases_to(w@, word@),
{
    let n = w.unicode_len();
    if n != word.unicode_len() {
        return false;
    }
    let mut i: usize = 0;
    while i < n
        invariant
            n == w@.len(),
            n == word@.len(),
            i <= n,
            forall|k: int| 0 <= k < i ==> upper_is(#[trigger] w@[k], word@[k]),
        decreases n - i,
    {
        let c = w.get_char(i);
        let u = word.get_char(i);
        if !(c == u || ('a' <= c && c <= 'z' && (c as u32) == (u as u32) + 32) || (u == 'S' && c == '\u{17f}')) {
            return false;
        }
        i += 1;
    }
    true
}

/// The position of the first `=` of `w`, or its length.
fn first_equals(w: &str) -> (p: usize)
    ensures
        p == equals_position(w@),
        p <= w@.len(),
{
    let n = w.unicode_len();
    let mut i: usize = 0;
    while i < n && w.get_char(i) != '='
        invariant
            n == w@.len(),
            i <= n,
            forall|k: int| 0 <= k < i ==> #[trigger] w@[k] != '=',
        decreases n - i,
    {
        i += 1;
    }
    proof {
        lemma_equals_position(w@, i as int);
    }
    i
}

/// Appends the tokens of `word`.
fn push_word_tokens(word: &str, tokens: &mut Vec<Token>)
    ensures
        token_views(final(tokens)@) == token_views(old(tokens)@) + word_tokens(word@),
{
    let ghost w = word@;
    let ghost before = token_views(tokens@);
    let n = word.unicode_len();
    if uppercase_is(word, "SELECT") || uppercase_is(word, "FROM") || uppercase_is(word, "WHERE") {
        tokens.push(Token::Keyword(String::from_str(word)));
    } else if n == 1 && word.get_char(0) == '*' {
        proof {
            assert(w =~= seq!['*']);
        }
        tokens.push(Token::Operator('*'));
    } else if n == 1 && word.get_char(0) == '=' {
        proof {
            assert(w =~= seq!['=']);
            assert(w != seq!['*']);
        }
        tokens.push(Token::Operator('='));
    } else {
        proof {
            if w == seq!['*'] {
                assert(w[0] == '*');
            }
            if w == seq!['='] {
                assert(w[0] == '=');
            }
        }
        let p = first_equals(word);
        if 0 < p && n - p > 1 {
            tokens.push(Token::Identifier(String::from_str(word.substring_char(0, p))));
            tokens.push(Token::Operator('='));
            tokens.push(Token::Identifier(String::from_str(word.substring_char(p + 1, n))));
        } else {
            tokens.push(Token::Identifier(String::from_str(word)));
        }
    }
    proof {
        assert(token_views(tokens@) =~= before + word_tokens(w));
    }
}

/// Splits `input` into tokens: its whitespace-separated words, each as
/// `word_tokens` gives, then `EOF`.
pub fn tokenize(input: &str) -> (tokens: Vec<Token>)
    ensures
        token_views(tokens@) == spec_tokenize(input@),
{
    let ghost s = input@;
    let n = input.unicode_len();
    let mut tokens: Vec<Token> = Vec::new();
    let mut i: usize = 0;
    proof {
        assert(s.skip(0) =~= s);
        assert(token_views(tokens@) =~= Seq::<TokenView>::empty());
    }
    while i < n
        invariant
            s == input@,
            n == s.len(),
            i <= n,
            token_views(tokens@) + tokens_of(words(s.skip(i as int))) == tokens_of(words(s)),
        decreases n - i,
    {
        let c = input.get_char(i);
        let ghost t = s.skip(i as int);
        if is_whitespace_char(c) {
            proof {
                assert(t.drop_first() =~= s.skip(i + 1));
            }
            i += 1;
        } else {
            let mut j = i + 1;
            while j < n && !is_whitespace_char(input.get_char(j))
                invariant
                    s == input@,
                    n == s.len(),
                    i < j <= n,
                    forall|k: int| i <= k < j ==> !is_whitespace(#[trigger] s[k]),
                decreases n - j,
            {
                j += 1;
            }
            let ghost before = token_views(tokens@);
            push_word_tokens(input.substring_char(i, j), &mut tokens);
            proof {
                let m = (j - i) as int;
                assert forall|k: int| 0 <= k < m implies !is_whitespace(#[trigger] t[k]) by {
                    assert(t[k] == s[i + k]);
                }
                if j < n {
                    assert(t[m] == s[j as int]);
                }
                lemma_word_len_exact(t, m);
                assert(t.take(m) =~= s.subrange(i as int, j as int));
                assert(t.skip(m) =~= s.skip(j as int));
                let ws = words(t);
                assert(ws == seq![t.take(m)] + words(t.skip(m)));
                assert(ws[0] == t.take(m));
                assert(ws.drop_first() =~= words(t.skip(m)));
                assert(tokens_of(ws) == word_tokens(ws[0]) + tokens_of(ws.drop_first()));
                assert(token_views(tokens@) + tokens_of(words(s.skip(j as int))) =~= before + tokens_of(words(t)));
            }
            i = j;
        }
    }
    proof {
        assert(s.skip(n as int) =~= Seq::<char>::empty());
    }
    let ghost before = token_views(tokens@);
    tokens.push(Token::EOF);
    proof {
        assert(token_views(tokens@) =~= before.push(TokenView::EOF));
        assert(before =~= tokens_of(words(s)));
    }
    tokens
}

/// A run of non-whitespace characters stops at the end of `x` when what
/// follows starts with whitespace.
proof fn lemma_word_len_concat(x: Seq<char>, y: Seq<char>)
    requires
        y.len() > 0,
        is_whitespace(y[0]),
    ensures
        word_len(x + y) == word_len(x),
    decreases x.len(),
{
    if x.len() == 0 {
        assert(x + y =~= y);
    } else {
        assert((x + y)[0] == x[0]);
        if !is_whitespace(x[0]) {
            assert((x + y).drop_first() =~= x.drop_first() + y);
            lemma_word_len_concat(x.drop_first(), y);
        }
    }
}

/// The words of two texts joined by a whitespace character are the words of
/// the first, then those of the second.
pub proof fn lemma_words_join_at(a: Seq<char>, c: char, b: Seq<char>)
    requires
        is_whitespace(c),
    ensures
        words(a + seq![c] + b) == words(a) + words(b),
    decreases a.len(),
{
    let s = a + seq![c] + b;
    if a.len() == 0 {
        assert(s[0] == c);
        assert(s.drop_first() =~= b);
        assert(words(a) =~= Seq::<Seq<char>>::empty());
        assert(words(a) + words(b) =~= words(b));
    } else if is_whitespace(a[0]) {
        assert(s[0] == a[0]);
        assert(s.drop_first() =~= a.drop_first() + seq![c] + b);
        lemma_words_join_at(a.drop_first(), c, b);
    } else {
        assert(s[0] == a[0]);
        let rest = seq![c] + b;
        assert(s =~= a + rest);
        lemma_word_len_concat(a, rest);
        lemma_word_len_bound(a);
        let n = word_len(a) as int;
        assert(s.take(n) =~= a.take(n));
        assert(s.skip(n) =~= a.skip(n) + seq![c] + b);
        lemma_words_join_at(a.skip(n), c, b);
        assert(words(a) == seq![a.take(n)] + words(a.skip(n)));
        assert(words(s) == seq![s.take(n)] + words(s.skip(n)));
        assert(words(s) =~= words(a) + words(b));
    }
}

/// The words of two texts joined by a space are the words of the first, then
/// those of the second.
pub proof fn lemma_words_join(a: Seq<char>, b: Seq<char>)
    ensures
        words(a + seq![' '] + b) == words(a) + words(b),
{
    lemma_words_join_at(a, ' ', b);
}

/// The tokens of two lists of words are those of the first, then those of
/// the second.
pub proof fn lemma_tokens_of_add(x: Seq<Seq<char>>, y: Seq<Seq<char>>)
    ensures
        tokens_of(x + y) == tokens_of(x) + tokens_of(y),
    decreases x.len(),
{
    if x.len() == 0 {
        assert(x + y =~= y);
        assert(tokens_of(x) + tokens_of(y) =~= tokens_of(y));
    } else {
        assert((x + y)[0] == x[0]);
        assert((x + y).drop_first() =~= x.drop_first() + y);
        lemma_tokens_of_add(x.drop_first(), y);
        assert(tokens_of(x + y) =~= tokens_of(x) + tokens_of(y));
    }
}

/// Tokenizing two texts joined by a space gives the tokens of the first
/// without its final `EOF`, then the tokens of the second.
pub proof fn lemma_tokenize_join(a: Seq<char>, b: Seq<char>)
    ensures
        spec_tokenize(a + seq![' '] + b) == spec_tokenize(a).drop_last() + spec_tokenize(b),
{
    lemma_words_join(a, b);
    lemma_tokens_of_add(words(a), words(b));
    assert(spec_tokenize(a).drop_last() =~= tokens_of(words(a)));
    assert(spec_tokenize(a + seq![' '] + b) =~= spec_tokenize(a).drop_last() + spec_tokenize(b));
}

/// The characters with the Unicode `White_Space` property: the tab, line
/// feed, line tabulation, form feed, carriage return, space, next line,
/// no-break space, ogham space mark, the spaces from en quad to hair space,
/// line separator, paragraph separator, narrow no-break space, medium
/// mathematical space and ideographic space.
pub open spec fn white_space_chars() -> Seq<char> {
    seq![
        '\u{9}', '\u{a}', '\u{b}', '\u{c}', '\u{d}', ' ', '\u{85}', '\u{a0}', '\u{1680}',
        '\u{2000}', '\u{2001}', '\u{2002}', '\u{2003}', '\u{2004}', '\u{2005}', '\u{2006}',
        '\u{2007}', '\u{2008}', '\u{2009}', '\u{200a}', '\u{2028}', '\u{2029}', '\u{202f}',
        '\u{205f}', '\u{3000}'
    ]
}

/// Every `White_Space` character separates words as a space does: two texts
/// joined by it tokenize as the same texts joined by a space, that is, as the
/// tokens of the first without its `EOF`, then those of the second. A query
/// written over several lines or with tabs reads as one written on one line.
pub proof fn lemma_whitespace_separates(a: Seq<char>, c: char, b: Seq<char>)
    requires
        white_space_chars().contains(c),
    ensures
        spec_tokenize(a + seq![c] + b) == spec_tokenize(a + seq![' '] + b),
        spec_tokenize(a + seq![c] + b) == spec_tokenize(a).drop_last() + spec_tokenize(b),
{
    let i = choose|i: int| 0 <= i < white_space_chars().len() && white_space_chars()[i] == c;
    assert(is_whitespace(c));
    lemma_words_join_at(a, c, b);
    lemma_tokenize_join(a, b);
    lemma_tokens_of_add(words(a), words(b));
    assert(spec_tokenize(a).drop_last() =~= tokens_of(words(a)));
    assert(spec_tokenize(a + seq![c] + b) =~= spec_tokenize(a).drop_last() + spec_tokenize(b));
}

/// A plain word: not empty, without whitespace or `=`, neither `*` nor a
/// keyword.
pub open spec fn plain_word(w: Seq<char>) -> bool {
    &&& w.len() > 0
    &&& forall|k: int| 0 <= k < w.len() ==> !is_whitespace(#[trigger] w[k]) && w[k] != '='
    &&& w != seq!['*']
    &&& !uppercases_to(w, "SELECT"@)
    &&& !uppercases_to(w, "FROM"@)
    &&& !uppercases_to(w, "WHERE"@)
}

/// A text without whitespace is one word.
proof fn lemma_one_word(w: Seq<char>)
    requires
        w.len() > 0,
        forall|k: int| 0 <= k < w.len() ==> !is_whitespace(#[trigger] w[k]),
    ensures
        words(w) == seq![w],
{
    lemma_word_len_exact(w, w.len() as int);
    assert(w.take(w.len() as int) =~= w);
    assert(w.skip(w.len() as int) =~= Seq::<char>::empty());
    assert(words(Seq::<char>::empty()) =~= Seq::<Seq<char>>::empty());
    assert(words(w) =~= seq![w]);
}

/// A plain word is an identifier.
proof fn lemma_plain_word_tokens(w: Seq<char>)
    requires
        plain_word(w),
    ensures
        word_tokens(w) == seq![TokenView::Identifier(w)],
{
    lemma_equals_position(w, w.len() as int);
    if w == seq!['='] {
        assert(w[0] == '=');
    }
}

/// No word holding `=` upper-cases to a keyword.
proof fn lemma_equals_not_keyword(w: Seq<char>, p: int)
    requires
        0 <= p < w.len(),
        w[p] == '=',
    ensures
        !uppercases_to(w, "SELECT"@),
        !uppercases_to(w, "FROM"@),
        !uppercases_to(w, "WHERE"@),
{
    reveal_strlit("SELECT");
    reveal_strlit("FROM");
    reveal_strlit("WHERE");
    if uppercases_to(w, "SELECT"@) {
        assert(upper_is(w[p], "SELECT"@[p]));
    }
    if uppercases_to(w, "FROM"@) {
        assert(upper_is(w[p], "FROM"@[p]));
    }
    if uppercases_to(w, "WHERE"@) {
        assert(upper_is(w[p], "WHERE"@[p]));
    }
}

/// A condition written `a=b` without spaces tokenizes as `a = b` does: the
/// name `a`, the operator `=`, and the name `b`, for plain words `a` and `b`.
pub proof fn lemma_equals_splits(a: Seq<char>, b: Seq<char>)
    requires
        plain_word(a),
        plain_word(b),
    ensures
        spec_tokenize(a + seq!['='] + b) == spec_tokenize(a + seq![' ', '=', ' '] + b),
        spec_tokenize(a + seq!['='] + b)
            == seq![TokenView::Identifier(a), TokenView::Operator('='), TokenView::Identifier(b), TokenView::EOF],
{
    let w = a + seq!['='] + b;
    let p = a.len() as int;
    assert(w[p] == '=');
    assert forall|k: int| 0 <= k < w.len() implies !is_whitespace(#[trigger] w[k]) by {
        if k < p {
            assert(w[k] == a[k]);
        } else if k > p {
            assert(w[k] == b[k - p - 1]);
        }
    }
    lemma_one_word(w);
    assert forall|k: int| 0 <= k < p implies #[trigger] w[k] != '=' by {
        assert(w[k] == a[k]);
    }
    lemma_equals_position(w, p);
    lemma_equals_not_keyword(w, p);
    assert(w != seq!['*'] && w != seq!['=']) by {
        assert(w.len() >= 3);
    }
    assert(w.take(p) =~= a);
    assert(w.skip(p + 1) =~= b);
    assert(word_tokens(w) == seq![TokenView::Identifier(a), TokenView::Operator('='), TokenView::Identifier(b)]);
    assert(seq![w].drop_first() =~= Seq::<Seq<char>>::empty());
    assert(tokens_of(Seq::<Seq<char>>::empty()) =~= Seq::<TokenView>::empty());
    assert(tokens_of(seq![w]) =~= word_tokens(w));
    let eq = seq!['='];
    let u = a + seq![' ', '=', ' '] + b;
    assert(u =~= a + seq![' '] + (eq + seq![' '] + b));
    lemma_words_join_at(a, ' ', eq + seq![' '] + b);
    lemma_words_join_at(eq, ' ', b);
    lemma_one_word(a);
    lemma_one_word(b);
    lemma_one_word(eq);
    lemma_plain_word_tokens(a);
    lemma_plain_word_tokens(b);
    lemma_equals_not_keyword(eq, 0);
    assert(word_tokens(eq) == seq![TokenView::Operator('=')]);
    let ws = seq![a] + (seq![eq] + seq![b]);
    assert(words(u) == ws);
    lemma_tokens_of_add(seq![a], seq![eq] + seq![b]);
    lemma_tokens_of_add(seq![eq], seq![b]);
    assert(seq![a].drop_first() =~= Seq::<Seq<char>>::empty());
    assert(seq![eq].drop_first() =~= Seq::<Seq<char>>::empty());
    assert(seq![b].drop_first() =~= Seq::<Seq<char>>::empty());
    assert(tokens_of(seq![a]) =~= word_tokens(a));
    assert(tokens_of(seq![eq]) =~= word_tokens(eq));
    assert(tokens_of(seq![b]) =~= word_tokens(b));
    assert(spec_tokenize(u) =~= seq![TokenView::Identifier(a), TokenView::Operator('='), TokenView::Identifier(b), TokenView::EOF]);
    assert(spec_tokenize(w) =~= seq![TokenView::Identifier(a), TokenView::Operator('='), TokenView::Identifier(b), TokenView::EOF]);
}

/// The code of `c`, upper-cased if `c` is a lower-case ASCII letter.
pub open spec fn upper_code(c: char) -> u32 {
    if 'a' <= c <= 'z' { (c as u32 - 32) as u32 } else { c as u32 }
}

/// `w` is `word` in any mix of ASCII cases.
pub open spec fn ascii_case_of(w: Seq<char>, word: Seq<char>) -> bool {
    &&& w.len() == word.len()
    &&& forall|i: int| 0 <= i < w.len() ==> upper_code(#[trigger] w[i]) == word[i] as u32
}

/// Characters with one code are one character.
proof fn lemma_same_code(a: char, b: char)
    ensures
        a as u32 == b as u32 ==> a == b,
{
}

/// `SELECT`, `FROM` and `WHERE` are keywords in any mix of ASCII cases: a
/// word that is one of them, however written, is a keyword token holding the
/// word as written.
pub proof fn lemma_keywords_any_case(w: Seq<char>)
    requires
        ascii_case_of(w, "SELECT"@) || ascii_case_of(w, "FROM"@) || ascii_case_of(w, "WHERE"@),
    ensures
        word_tokens(w) == seq![TokenView::Keyword(w)],
{
    reveal_strlit("SELECT");
    reveal_strlit("FROM");
    reveal_strlit("WHERE");
    assert('a' as u32 == 97 && 'z' as u32 == 122);
    if ascii_case_of(w, "SELECT"@) {
        assert forall|i: int| 0 <= i < w.len() implies upper_is(#[trigger] w[i], "SELECT"@[i]) by {
            if !('a' <= w[i] <= 'z') {
                lemma_same_code(w[i], "SELECT"@[i]);
            }
        }
    } else if ascii_case_of(w, "FROM"@) {
        assert forall|i: int| 0 <= i < w.len() implies upper_is(#[trigger] w[i], "FROM"@[i]) by {
            if !('a' <= w[i] <= 'z') {
                lemma_same_code(w[i], "FROM"@[i]);
            }
        }
    } else {
        assert forall|i: int| 0 <= i < w.len() implies upper_is(#[trigger] w[i], "WHERE"@[i]) by {
            if !('a' <= w[i] <= 'z') {
                lemma_same_code(w[i], "WHERE"@[i]);
            }
        }
    }
}
} // verus!
