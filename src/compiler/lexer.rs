use vstd::prelude::*;
use crate::text::{
    all_digits, chars_of, copy_range, decimal, is_digit, lemma_decimal_value, matches_text,
    numeral_value, parse_numeral, push_char, string_of,
};

verus! {

/// A token of the source language.
#[derive(Debug, Clone, PartialEq)]
pub enum Token {
    /// One of `mut`, `for`, `in`, `print`.
    Keyword(String),
    Identifier(String),
    Number(i32),
    Colon,
    /// `..`
    RangeExclusive,
    /// `..=`
    RangeInclusive,
    /// One of `+ - * / =`, or a lone `.`.
    Operator(String),
    Newline,
    Indent,
    Dedent,
    EOF,
}

/// A token as a mathematical value.
pub enum TokenView {
    Keyword(Seq<char>),
    Identifier(Seq<char>),
    Number(i32),
    Colon,
    RangeExclusive,
    RangeInclusive,
    Operator(Seq<char>),
    Newline,
    Indent,
    Dedent,
    EOF,
}

impl View for Token {
    type V = TokenView;

    open spec fn view(&self) -> TokenView {
        match self {
            Token::Keyword(s) => TokenView::Keyword(s@),
            Token::Identifier(s) => TokenView::Identifier(s@),
            Token::Number(n) => TokenView::Number(*n),
            Token::Colon => TokenView::Colon,
            Token::RangeExclusive => TokenView::RangeExclusive,
            Token::RangeInclusive => TokenView::RangeInclusive,
            Token::Operator(s) => TokenView::Operator(s@),
            Token::Newline => TokenView::Newline,
            Token::Indent => TokenView::Indent,
            Token::Dedent => TokenView::Dedent,
            Token::EOF => TokenView::EOF,
        }
    }
}

pub open spec fn token_views(v: Seq<Token>) -> Seq<TokenView> {
    v.map_values(|t: Token| t@)
}

/// Why source text could not be tokenized.
#[derive(Debug, Clone, Copy, PartialEq, Eq, Structural)]
pub enum LexError {
    /// A digit run whose value exceeds `i32::MAX`.
    NumberOutOfRange,
}

/// Classes of characters that form runs.
#[derive(Clone, Copy)]
pub enum CharClass {
    /// Spaces and tabs.
    Blank,
    /// Letters, digits and `_`.
    Word,
    Digit,
}

pub open spec fn is_blank(c: char) -> bool {
    c == ' ' || c == '\t'
}

pub open spec fn is_word_start(c: char) -> bool {
    'a' <= c <= 'z' || 'A' <= c <= 'Z' || c == '_'
}

pub open spec fn in_class(c: char, k: CharClass) -> bool {
    match k {
        CharClass::Blank => is_blank(c),
        CharClass::Word => is_word_start(c) || is_digit(c),
        CharClass::Digit => is_digit(c),
    }
}

/// The end of the run of class `k` that starts at `i`.
pub open spec fn run_end(s: Seq<char>, i: int, k: CharClass) -> int
    decreases s.len() - i,
{
    if 0 <= i < s.len() && in_class(s[i], k) {
        run_end(s, i + 1, k)
    } else {
        i
    }
}

pub proof fn lemma_run_end(s: Seq<char>, i: int, k: CharClass)
    ensures
        i <= run_end(s, i, k),
        0 <= i <= s.len() ==> run_end(s, i, k) <= s.len(),
        forall|j: int| 0 <= i <= j < run_end(s, i, k) ==> in_class(#[trigger] s[j], k),
        0 <= i && run_end(s, i, k) < s.len() ==> !in_class(s[run_end(s, i, k)], k),
    decreases s.len() - i,
{
    if 0 <= i < s.len() && in_class(s[i], k) {
        lemma_run_end(s, i + 1, k);
    }
}

pub open spec fn is_keyword(w: Seq<char>) -> bool {
    w == "mut"@ || w == "for"@ || w == "in"@ || w == "print"@
}

pub open spec fn word_token(w: Seq<char>) -> TokenView {
    if is_keyword(w) {
        TokenView::Keyword(w)
    } else {
        TokenView::Identifier(w)
    }
}

pub open spec fn is_operator_char(c: char) -> bool {
    c == '+' || c == '-' || c == '*' || c == '/' || c == '='
}

/// `k` dedent tokens.
pub open spec fn dedents(k: nat) -> Seq<TokenView> {
    Seq::new(k, |i: int| TokenView::Dedent)
}

/// Pops every level above `indent`, never the base level; gives the new
/// stack and the number of levels popped.
pub open spec fn pop_levels(stack: Seq<usize>, indent: usize) -> (Seq<usize>, nat)
    decreases stack.len(),
{
    if stack.len() > 1 && indent < stack.last() {
        let (rest, k) = pop_levels(stack.drop_last(), indent);
        (rest, k + 1)
    } else {
        (stack, 0)
    }
}

/// What end of input produces: a dedent for each open level, then `EOF`.
pub open spec fn finish(stack: Seq<usize>) -> Result<Seq<TokenView>, LexError> {
    Ok(dedents((stack.len() - 1) as nat).push(TokenView::EOF))
}

pub open spec fn cons(t: Seq<TokenView>, r: Result<Seq<TokenView>, LexError>) -> Result<
    Seq<TokenView>,
    LexError,
> {
    match r {
        Ok(v) => Ok(t + v),
        Err(e) => Err(e),
    }
}

pub open spec fn lex_measure(s: Seq<char>, pos: int, line_start: bool) -> int {
    (s.len() - pos) * 2 + if line_start {
        1int
    } else {
        0int
    }
}

/// The tokens of `s` from position `pos`, with the given indentation stack,
/// at the start of a line or not.
pub open spec fn lex_from(s: Seq<char>, pos: int, stack: Seq<usize>, line_start: bool) -> Result<
    Seq<TokenView>,
    LexError,
>
    decreases lex_measure(s, pos, line_start),
{
    proof {
        lemma_run_end(s, pos, CharClass::Blank);
    }
    let e = run_end(s, pos, CharClass::Blank);
    if e >= s.len() || pos < 0 {
        finish(stack)
    } else if line_start {
        if s[e] == '\n' {
            lex_from(s, e + 1, stack, true)
        } else {
            let indent = (e - pos) as usize;
            if indent > stack.last() {
                cons(seq![TokenView::Indent], lex_from(s, e, stack.push(indent), false))
            } else {
                let (rest, k) = pop_levels(stack, indent);
                cons(dedents(k), lex_from(s, e, rest, false))
            }
        }
    } else {
        let c = s[e];
        if c == '\n' {
            cons(seq![TokenView::Newline], lex_from(s, e + 1, stack, true))
        } else if c == ':' {
            cons(seq![TokenView::Colon], lex_from(s, e + 1, stack, false))
        } else if c == '.' {
            if e + 1 < s.len() && s[e + 1] == '.' {
                if e + 2 < s.len() && s[e + 2] == '=' {
                    cons(seq![TokenView::RangeInclusive], lex_from(s, e + 3, stack, false))
                } else {
                    cons(seq![TokenView::RangeExclusive], lex_from(s, e + 2, stack, false))
                }
            } else {
                cons(seq![TokenView::Operator(seq!['.'])], lex_from(s, e + 1, stack, false))
            }
        } else if is_word_start(c) {
            proof {
                lemma_run_end(s, e + 1, CharClass::Word);
            }
            let j = run_end(s, e + 1, CharClass::Word);
            cons(seq![word_token(s.subrange(e, j))], lex_from(s, j, stack, false))
        } else if is_digit(c) {
            proof {
                lemma_run_end(s, e + 1, CharClass::Digit);
            }
            let j = run_end(s, e + 1, CharClass::Digit);
            match numeral_value(s.subrange(e, j)) {
                Some(v) => if v <= i32::MAX {
                    cons(seq![TokenView::Number(v as i32)], lex_from(s, j, stack, false))
                } else {
                    Err(LexError::NumberOutOfRange)
                },
                None => Err(LexError::NumberOutOfRange),
            }
        } else if is_operator_char(c) {
            cons(seq![TokenView::Operator(seq![c])], lex_from(s, e + 1, stack, false))
        } else {
            lex_from(s, e + 1, stack, false)
        }
    }
}

/// The tokens of source text `s`.
pub open spec fn lex(s: Seq<char>) -> Result<Seq<TokenView>, LexError> {
    lex_from(s, 0, seq![0usize], true)
}

pub proof fn lemma_cons_assoc(a: Seq<TokenView>, b: Seq<TokenView>, r: Result<Seq<TokenView>, LexError>)
    ensures
        cons(a, cons(b, r)) == cons(a + b, r),
{
    if let Ok(v) = r {
        assert(a + (b + v) =~= (a + b) + v);
    }
}

/// How many times `t` occurs in `v`.
pub open spec fn count_token(v: Seq<TokenView>, t: TokenView) -> nat
    decreases v.len(),
{
    if v.len() == 0 {
        0
    } else {
        count_token(v.drop_last(), t) + if v.last() == t {
            1nat
        } else {
            0nat
        }
    }
}

pub proof fn lemma_count_concat(a: Seq<TokenView>, b: Seq<TokenView>, t: TokenView)
    ensures
        count_token(a + b, t) == count_token(a, t) + count_token(b, t),
    decreases b.len(),
{
    if b.len() == 0 {
        assert(a + b =~= a);
    } else {
        lemma_count_concat(a, b.drop_last(), t);
        assert((a + b).drop_last() =~= a + b.drop_last());
    }
}

proof fn lemma_count_dedents(k: nat)
    ensures
        count_token(dedents(k), TokenView::Dedent) == k,
        count_token(dedents(k), TokenView::Indent) == 0,
    decreases k,
{
    if k > 0 {
        lemma_count_dedents((k - 1) as nat);
        assert(dedents(k).drop_last() =~= dedents((k - 1) as nat));
    }
}

proof fn lemma_pop_levels(stack: Seq<usize>, indent: usize)
    requires
        stack.len() >= 1,
    ensures
        pop_levels(stack, indent).0.len() >= 1,
        pop_levels(stack, indent).0.len() + pop_levels(stack, indent).1 == stack.len(),
    decreases stack.len(),
{
    if stack.len() > 1 && indent < stack.last() {
        lemma_pop_levels(stack.drop_last(), indent);
    }
}

proof fn lemma_balance_cons(
    t: Seq<TokenView>,
    r: Result<Seq<TokenView>, LexError>,
    before: int,
    after: int,
)
    requires
        r matches Ok(v) ==> count_token(v, TokenView::Indent) + after == count_token(v, TokenView::Dedent),
        count_token(t, TokenView::Indent) + before == count_token(t, TokenView::Dedent) + after,
    ensures
        cons(t, r) matches Ok(v) ==> count_token(v, TokenView::Indent) + before == count_token(v, TokenView::Dedent),
{
    if let Ok(v) = r {
        lemma_count_concat(t, v, TokenView::Indent);
        lemma_count_concat(t, v, TokenView::Dedent);
    }
}

/// From any state, each open indentation level is closed once: the
/// dedents produced exceed the indents by the levels open above the base.
proof fn lemma_lex_from_balanced(s: Seq<char>, pos: int, stack: Seq<usize>, line_start: bool)
    requires
        stack.len() >= 1,
    ensures
        lex_from(s, pos, stack, line_start) matches Ok(v) ==> count_token(v, TokenView::Indent)
            + stack.len() - 1 == count_token(v, TokenView::Dedent),
    decreases lex_measure(s, pos, line_start),
{
    lemma_run_end(s, pos, CharClass::Blank);
    let e = run_end(s, pos, CharClass::Blank);
    if e >= s.len() || pos < 0 {
        let k = (stack.len() - 1) as nat;
        lemma_count_dedents(k);
        lemma_count_single(TokenView::EOF, TokenView::Indent);
        lemma_count_single(TokenView::EOF, TokenView::Dedent);
        lemma_count_concat(dedents(k), seq![TokenView::EOF], TokenView::Indent);
        lemma_count_concat(dedents(k), seq![TokenView::EOF], TokenView::Dedent);
        assert(seq![TokenView::EOF].drop_last() =~= Seq::<TokenView>::empty());
        assert(dedents(k) + seq![TokenView::EOF] =~= dedents(k).push(TokenView::EOF));
    } else if line_start {
        if s[e] == '\n' {
            lemma_lex_from_balanced(s, e + 1, stack, true);
        } else {
            let indent = (e - pos) as usize;
            if indent > stack.last() {
                lemma_lex_from_balanced(s, e, stack.push(indent), false);
                let t = seq![TokenView::Indent];
                lemma_count_single(TokenView::Indent, TokenView::Indent);
                lemma_count_single(TokenView::Indent, TokenView::Dedent);
                lemma_balance_cons(t, lex_from(s, e, stack.push(indent), false), stack.len() - 1, stack.len() as int);
            } else {
                let (rest, k) = pop_levels(stack, indent);
                lemma_pop_levels(stack, indent);
                lemma_lex_from_balanced(s, e, rest, false);
                lemma_count_dedents(k);
                lemma_balance_cons(dedents(k), lex_from(s, e, rest, false), stack.len() - 1, rest.len() - 1);
            }
        }
    } else {
        let c = s[e];
        let b = stack.len() - 1;
        if c == '\n' {
            lemma_lex_from_balanced(s, e + 1, stack, true);
            lemma_balance_one(TokenView::Newline, lex_from(s, e + 1, stack, true), b);
        } else if c == ':' {
            lemma_lex_from_balanced(s, e + 1, stack, false);
            lemma_balance_one(TokenView::Colon, lex_from(s, e + 1, stack, false), b);
        } else if c == '.' {
            if e + 1 < s.len() && s[e + 1] == '.' {
                if e + 2 < s.len() && s[e + 2] == '=' {
                    lemma_lex_from_balanced(s, e + 3, stack, false);
                    lemma_balance_one(TokenView::RangeInclusive, lex_from(s, e + 3, stack, false), b);
                } else {
                    lemma_lex_from_balanced(s, e + 2, stack, false);
                    lemma_balance_one(TokenView::RangeExclusive, lex_from(s, e + 2, stack, false), b);
                }
            } else {
                lemma_lex_from_balanced(s, e + 1, stack, false);
                lemma_balance_one(TokenView::Operator(seq!['.']), lex_from(s, e + 1, stack, false), b);
            }
        } else if is_word_start(c) {
            lemma_run_end(s, e + 1, CharClass::Word);
            let j = run_end(s, e + 1, CharClass::Word);
            lemma_lex_from_balanced(s, j, stack, false);
            lemma_balance_one(word_token(s.subrange(e, j)), lex_from(s, j, stack, false), b);
        } else if is_digit(c) {
            lemma_run_end(s, e + 1, CharClass::Digit);
            let j = run_end(s, e + 1, CharClass::Digit);
            if let Some(v) = numeral_value(s.subrange(e, j)) {
                if v <= i32::MAX {
                    lemma_lex_from_balanced(s, j, stack, false);
                    lemma_balance_one(TokenView::Number(v as i32), lex_from(s, j, stack, false), b);
                }
            }
        } else if is_operator_char(c) {
            lemma_lex_from_balanced(s, e + 1, stack, false);
            lemma_balance_one(TokenView::Operator(seq![c]), lex_from(s, e + 1, stack, false), b);
        } else {
            lemma_lex_from_balanced(s, e + 1, stack, false);
        }
    }
}

proof fn lemma_count_single(tok: TokenView, t: TokenView)
    ensures
        count_token(seq![tok], t) == if tok == t {
            1nat
        } else {
            0nat
        },
{
    assert(seq![tok].drop_last() =~= Seq::<TokenView>::empty());
    assert(count_token(Seq::<TokenView>::empty(), t) == 0);
    assert(seq![tok].last() == tok);
}

proof fn lemma_balance_one(tok: TokenView, r: Result<Seq<TokenView>, LexError>, b: int)
    requires
        tok != TokenView::Indent && tok != TokenView::Dedent,
        r matches Ok(v) ==> count_token(v, TokenView::Indent) + b == count_token(v, TokenView::Dedent),
    ensures
        cons(seq![tok], r) matches Ok(v) ==> count_token(v, TokenView::Indent) + b == count_token(v, TokenView::Dedent),
{
    lemma_count_single(tok, TokenView::Indent);
    lemma_count_single(tok, TokenView::Dedent);
    lemma_balance_cons(seq![tok], r, b, b);
}

/// Tokenizing closes every indentation level it opens: a successful result
/// holds as many `Dedent` tokens as `Indent` tokens.
pub proof fn lemma_indentation_balanced(s: Seq<char>)
    ensures
        lex(s) matches Ok(v) ==> count_token(v, TokenView::Indent) == count_token(v, TokenView::Dedent),
{
    lemma_lex_from_balanced(s, 0, seq![0usize], true);
}

proof fn lemma_run_to_end(s: Seq<char>, i: int)
    requires
        0 <= i <= s.len(),
        all_digits(s),
    ensures
        run_end(s, i, CharClass::Digit) == s.len(),
    decreases s.len() - i,
{
    if i < s.len() {
        lemma_run_to_end(s, i + 1);
    }
}

/// The decimal numeral of any value in `0..=i32::MAX` tokenizes to exactly
/// one `Number` token carrying that value, then `EOF`.
pub proof fn lemma_lone_number(n: i32)
    requires
        n >= 0,
    ensures
        lex(decimal(n as nat)) == Ok::<Seq<TokenView>, LexError>(
            seq![TokenView::Number(n), TokenView::EOF],
        ),
{
    let s = decimal(n as nat);
    let base = seq![0usize];
    lemma_decimal_value(n as nat);
    assert(is_digit(s[0]));
    assert(run_end(s, 0, CharClass::Blank) == 0);
    assert(pop_levels(base, 0) == (base, 0nat));
    lemma_run_to_end(s, 1);
    assert(s.subrange(0, s.len() as int) =~= s);
    let end = lex_from(s, s.len() as int, base, false);
    assert(run_end(s, s.len() as int, CharClass::Blank) == s.len());
    assert(end == finish(base));
    assert(dedents(0).push(TokenView::EOF) =~= seq![TokenView::EOF]);
    let mid = lex_from(s, 0, base, false);
    assert(mid == cons(seq![TokenView::Number(n)], end));
    assert(seq![TokenView::Number(n)] + seq![TokenView::EOF] =~= seq![TokenView::Number(n), TokenView::EOF]);
    assert(lex(s) == cons(dedents(0), mid));
    assert(dedents(0) + seq![TokenView::Number(n), TokenView::EOF] =~= seq![TokenView::Number(n), TokenView::EOF]);
}

pub struct Lexer {
    chars: Vec<char>,
    position: usize,
    indent_stack: Vec<usize>,
    at_line_start: bool,
}

impl Lexer {
    pub closed spec fn source(&self) -> Seq<char> {
        self.chars@
    }

    /// The tokens still to come.
    pub closed spec fn rest(&self) -> Result<Seq<TokenView>, LexError> {
        lex_from(self.chars@, self.position as int, self.indent_stack@, self.at_line_start)
    }

    pub closed spec fn wf(&self) -> bool {
        &&& self.position <= self.chars@.len()
        &&& self.indent_stack@.len() >= 1
    }

    pub fn new(source: &str) -> (r: Self)
        ensures
            r.wf(),
            r.source() == source@,
            r.rest() == lex(source@),
    {
        let indent_stack = vec![0usize];
        assert(indent_stack@ =~= seq![0usize]);
        Lexer { chars: chars_of(source), position: 0, indent_stack, at_line_start: true }
    }

    /// Tokenizes the rest of the input: for a new lexer, the whole source.
    pub fn tokenize(&mut self) -> (r: Result<Vec<Token>, LexError>)
        requires
            old(self).wf(),
        ensures
            match old(self).rest() {
                Ok(v) => r is Ok && token_views(r->Ok_0@) == v,
                Err(e) => r == Err::<Vec<Token>, LexError>(e),
            },
    {
        let mut tokens: Vec<Token> = Vec::new();
        let ghost start = self.rest();
        assert(token_views(tokens@) =~= Seq::<TokenView>::empty());
        assert(cons(Seq::empty(), self.rest()) == self.rest()) by {
            if let Ok(v) = self.rest() {
                assert(Seq::<TokenView>::empty() + v =~= v);
            }
        }
        loop
            invariant_except_break
                start == cons(token_views(tokens@), self.rest()),
            invariant
                self.wf(),
                start == old(self).rest(),
            ensures
                self.wf(),
                start == old(self).rest(),
                start == cons(token_views(tokens@), finish(self.indent_stack@)),
            decreases lex_measure(self.chars@, self.position as int, self.at_line_start),
        {
            let ghost before = token_views(tokens@);
            let ghost r0 = self.rest();
            let more = match self.next_token(&mut tokens) {
                Ok(m) => m,
                Err(e) => {
                    assert(r0 == Err::<Seq<TokenView>, LexError>(e));
                    assert(start == Err::<Seq<TokenView>, LexError>(e));
                    return Err(e);
                },
            };
            if !more {
                break;
            }
            proof {
                lemma_cons_assoc(before, token_views(tokens@).skip(before.len() as int), self.rest());
                assert(before + token_views(tokens@).skip(before.len() as int) =~= token_views(tokens@));
            }
        }
        let mut k: usize = 1;
        while k < self.indent_stack.len()
            invariant
                self.wf(),
                start == old(self).rest(),
                1 <= k <= self.indent_stack@.len(),
                start == Ok::<Seq<TokenView>, LexError>(
                    token_views(tokens@) + dedents((self.indent_stack@.len() - k) as nat).push(TokenView::EOF),
                ),
            decreases self.indent_stack@.len() - k,
        {
            let ghost before = token_views(tokens@);
            tokens.push(Token::Dedent);
            proof {
                let n = (self.indent_stack@.len() - k) as nat;
                assert(token_views(tokens@) =~= before.push(TokenView::Dedent));
                assert(before + dedents(n).push(TokenView::EOF) =~= token_views(tokens@) + dedents(
                    (n - 1) as nat,
                ).push(TokenView::EOF));
            }
            k = k + 1;
        }
        let ghost before = token_views(tokens@);
        tokens.push(Token::EOF);
        assert(token_views(tokens@) =~= before.push(TokenView::EOF));
        assert(before + dedents(0).push(TokenView::EOF) =~= token_views(tokens@));
        Ok(tokens)
    }

    /// Index of the first position at or after `from` outside a run of `k`.
    fn scan(&self, from: usize, k: CharClass) -> (r: usize)
        requires
            from <= self.chars@.len(),
        ensures
            r == run_end(self.chars@, from as int, k),
    {
        let mut i = from;
        while i < self.chars.len() && self.char_in_class(i, k)
            invariant
                from <= i <= self.chars@.len(),
                run_end(self.chars@, i as int, k) == run_end(self.chars@, from as int, k),
            decreases self.chars@.len() - i,
        {
            i = i + 1;
        }
        i
    }

    fn char_in_class(&self, i: usize, k: CharClass) -> (r: bool)
        requires
            i < self.chars@.len(),
        ensures
            r == in_class(self.chars@[i as int], k),
    {
        let c = self.chars[i];
        match k {
            CharClass::Blank => c == ' ' || c == '\t',
            CharClass::Word => ('a' <= c && c <= 'z') || ('A' <= c && c <= 'Z') || c == '_' || ('0' <= c && c <= '9'),
            CharClass::Digit => '0' <= c && c <= '9',
        }
    }

    /// Performs one step of tokenizing: appends the tokens it produces and
    /// says whether input remains; `false` once the end of input is reached.
    fn next_token(&mut self, tokens: &mut Vec<Token>) -> (r: Result<bool, LexError>)
        requires
            old(self).wf(),
        ensures
            final(self).wf(),
            final(self).chars == old(self).chars,
            match r {
                Ok(true) => {
                    &&& final(tokens)@.len() >= old(tokens)@.len()
                    &&& final(tokens)@.take(old(tokens)@.len() as int) == old(tokens)@
                    &&& old(self).rest() == cons(
                        token_views(final(tokens)@).skip(old(tokens)@.len() as int),
                        final(self).rest(),
                    )
                    &&& lex_measure(final(self).chars@, final(self).position as int, final(self).at_line_start)
                        < lex_measure(old(self).chars@, old(self).position as int, old(self).at_line_start)
                },
                Ok(false) => {
                    &&& final(tokens)@ == old(tokens)@
                    &&& final(self).indent_stack == old(self).indent_stack
                    &&& old(self).rest() == finish(old(self).indent_stack@)
                },
                Err(e) => old(self).rest() == Err::<Seq<TokenView>, LexError>(e),
            },
    {
        let ghost s = self.chars@;
        let ghost pos = self.position as int;
        proof {
            lemma_run_end(s, pos, CharClass::Blank);
        }
        let n = self.chars.len();
        let e = self.scan(self.position, CharClass::Blank);
        if e >= n {
            return Ok(false);
        }
        let ghost len0 = tokens@.len();
        if self.at_line_start {
            if self.chars[e] == '\n' {
                self.position = e + 1;
                assert(token_views(tokens@).skip(len0 as int) =~= Seq::<TokenView>::empty());
                assert(cons(Seq::empty(), self.rest()) == self.rest()) by {
                    if let Ok(v) = self.rest() {
                        assert(Seq::<TokenView>::empty() + v =~= v);
                    }
                }
                return Ok(true);
            }
            let indent = e - self.position;
            let top = self.indent_stack[self.indent_stack.len() - 1];
            self.position = e;
            self.at_line_start = false;
            if indent > top {
                self.indent_stack.push(indent);
                tokens.push(Token::Indent);
                assert(token_views(tokens@).skip(len0 as int) =~= seq![TokenView::Indent]);
                return Ok(true);
            }
            let ghost orig = self.indent_stack@;
            let ghost popped: nat = 0;
            while self.indent_stack.len() > 1 && indent < self.indent_stack[self.indent_stack.len() - 1]
                invariant
                    self.indent_stack@.len() >= 1,
                    self.position == e,
                    self.chars == old(self).chars,
                    self.chars@ == s,
                    !self.at_line_start,
                    tokens@.len() == len0 + popped,
                    tokens@.take(len0 as int) == old(tokens)@,
                    token_views(tokens@).skip(len0 as int) == dedents(popped),
                    pop_levels(orig, indent) == ({
                        let (r, k) = pop_levels(self.indent_stack@, indent);
                        (r, k + popped)
                    }),
                decreases self.indent_stack@.len(),
            {
                let ghost st = self.indent_stack@;
                self.indent_stack.pop();
                assert(self.indent_stack@ =~= st.drop_last());
                let ghost tv = token_views(tokens@);
                tokens.push(Token::Dedent);
                assert(token_views(tokens@) =~= tv.push(TokenView::Dedent));
                assert(tv.len() == len0 + popped);
                assert(tv.skip(len0 as int) == dedents(popped));
                assert(token_views(tokens@).skip(len0 as int) =~= tv.skip(len0 as int).push(TokenView::Dedent));
                assert(dedents(popped).push(TokenView::Dedent) =~= dedents(popped + 1));
                proof {
                    popped = popped + 1;
                }
                assert(tokens@.take(len0 as int) =~= old(tokens)@);
            }
            assert(token_views(tokens@).skip(len0 as int) =~= dedents(popped));
            return Ok(true);
        }
        let c = self.chars[e];
        let tok: Token;
        if c == '\n' {
            self.position = e + 1;
            self.at_line_start = true;
            tok = Token::Newline;
        } else if c == ':' {
            self.position = e + 1;
            tok = Token::Colon;
        } else if c == '.' {
            if e + 1 < n && self.chars[e + 1] == '.' {
                if e + 2 < n && self.chars[e + 2] == '=' {
                    self.position = e + 3;
                    tok = Token::RangeInclusive;
                } else {
                    self.position = e + 2;
                    tok = Token::RangeExclusive;
                }
            } else {
                self.position = e + 1;
                let mut op = String::new();
                push_char(&mut op, '.');
                assert(op@ =~= seq!['.']);
                tok = Token::Operator(op);
            }
        } else if ('a' <= c && c <= 'z') || ('A' <= c && c <= 'Z') || c == '_' {
            proof {
                lemma_run_end(s, e + 1, CharClass::Word);
            }
            let j = self.scan(e + 1, CharClass::Word);
            let word = copy_range(&self.chars, e, j);
            let text = string_of(&self.chars, e, j);
            self.position = j;
            if matches_text(&word, "mut") || matches_text(&word, "for") || matches_text(&word, "in")
                || matches_text(&word, "print") {
                tok = Token::Keyword(text);
            } else {
                tok = Token::Identifier(text);
            }
        } else if '0' <= c && c <= '9' {
            proof {
                lemma_run_end(s, e + 1, CharClass::Digit);
            }
            let j = self.scan(e + 1, CharClass::Digit);
            let v = match parse_numeral(&self.chars, e, j) {
                Some(v) => v,
                None => return Err(LexError::NumberOutOfRange),
            };
            if v > i32::MAX as u64 {
                return Err(LexError::NumberOutOfRange);
            }
            self.position = j;
            tok = Token::Number(v as i32);
        } else if c == '+' || c == '-' || c == '*' || c == '/' || c == '=' {
            self.position = e + 1;
            let mut op = String::new();
            push_char(&mut op, c);
            assert(op@ =~= seq![c]);
            tok = Token::Operator(op);
        } else {
            self.position = e + 1;
            assert(token_views(tokens@).skip(len0 as int) =~= Seq::<TokenView>::empty());
            assert(cons(Seq::empty(), self.rest()) == self.rest()) by {
                if let Ok(v) = self.rest() {
                    assert(Seq::<TokenView>::empty() + v =~= v);
                }
            }
            return Ok(true);
        }
        tokens.push(tok);
        assert(tokens@.take(len0 as int) =~= old(tokens)@);
        assert(token_views(tokens@).skip(len0 as int) =~= seq![tok@]);
        Ok(true)
    }
}

} // verus!
