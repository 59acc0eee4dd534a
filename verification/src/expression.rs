//! Which expressions are handed to the expression engine.
//!
//! `minijinja` panics or does not come back on a few well-formed expressions: slices and ranges
//! that step backwards, sequences repeated too often, widths and counts that no memory holds, keys
//! in format texts, a test for divisibility by zero, chains of what cannot be chained, sorting by
//! an attribute that some items lack. Nor does it stand the end of a template block. All these are
//! told by their tokens and kept from the engine. So are expressions that only may be of this kind,
//! where what matters is computed.

use crate::text::{char_vec, same_text, text_of};
use vstd::prelude::*;

verus! {

/// A token of an expression.
pub enum Token {
    /// A name or a keyword.
    Name(Seq<char>),
    /// What starts with a digit.
    Number(Seq<char>),
    /// What stands between quotes, escapes as they are written.
    Text(Seq<char>),
    /// Any other character, by its code.
    Symbol(int),
}

/// The token of a character that stands for itself.
pub open spec fn symbol(c: char) -> Token {
    Token::Symbol(c as int)
}

/// The most tokens of an expression. The engine takes its stack for granted and uses more of it
/// with every operator.
pub const MAX_TOKENS: usize = 512;

/// The most brackets that are open at a time.
pub const MAX_NESTING: usize = 32;

/// Whether a character separates tokens.
pub open spec fn is_space(c: char) -> bool {
    c == ' ' || c == '\t' || c == '\n' || c == '\r' || c == '\x0c'
}

/// Whether a character is a digit.
pub open spec fn is_digit(c: char) -> bool {
    '0' <= c <= '9'
}

/// Whether a character is part of a name or a number.
pub open spec fn is_word(c: char) -> bool {
    is_digit(c) || 'a' <= c <= 'z' || 'A' <= c <= 'Z' || c == '_'
}

/// The number of characters before the end of a text in quotes, all of them where it has no end.
pub open spec fn text_len(s: Seq<char>, quote: char) -> nat
    decreases s.len(),
{
    if s.len() == 0 || s[0] == quote {
        0
    } else if s[0] == '\\' && s.len() > 1 {
        2 + text_len(s.skip(2), quote)
    } else {
        1 + text_len(s.skip(1), quote)
    }
}

/// The number of characters of the word that `s` starts with.
pub open spec fn word_len(s: Seq<char>) -> nat
    decreases s.len(),
{
    if s.len() == 0 || !is_word(s[0]) {
        0
    } else {
        1 + word_len(s.skip(1))
    }
}

/// A text in quotes ends within what follows its quote.
pub proof fn lemma_text_len(s: Seq<char>, quote: char)
    ensures
        text_len(s, quote) <= s.len(),
    decreases s.len(),
{
    if s.len() > 0 {
        if s[0] == '\\' && s.len() > 1 {
            lemma_text_len(s.skip(2), quote);
        } else {
            lemma_text_len(s.skip(1), quote);
        }
    }
}

/// A word ends within what it starts.
pub proof fn lemma_word_len(s: Seq<char>)
    ensures
        word_len(s) <= s.len(),
    decreases s.len(),
{
    if s.len() > 0 && is_word(s[0]) {
        lemma_word_len(s.skip(1));
    }
}

/// The tokens of an expression.
pub open spec fn tokens(s: Seq<char>) -> Seq<Token>
    decreases s.len(),
{
    if s.len() == 0 {
        Seq::empty()
    } else if is_space(s[0]) {
        tokens(s.skip(1))
    } else if s[0] == '"' || s[0] == '\'' {
        let n = text_len(s.skip(1), s[0]);
        let rest = if n + 2 <= s.len() {
            s.skip((n + 2) as int)
        } else {
            Seq::empty()
        };
        seq![Token::Text(s.subrange(1, (n + 1) as int))] + tokens(rest)
    } else if is_word(s[0]) {
        let n = word_len(s);
        proof {
            lemma_word_len(s);
        }
        let word = s.take(n as int);
        let token = if is_digit(s[0]) {
            Token::Number(word)
        } else {
            Token::Name(word)
        };
        seq![token] + tokens(s.skip(n as int))
    } else {
        seq![symbol(s[0])] + tokens(s.skip(1))
    }
}

/// The token of a list at a place; a space where there is none.
pub open spec fn at(list: Seq<Token>, i: int) -> Token {
    if 0 <= i < list.len() {
        list[i]
    } else {
        symbol(' ')
    }
}

/// The place of the innermost bracket that is open before place `i`, when `closed` brackets more
/// are closed than opened after it; -1 where there is none.
pub open spec fn opener(list: Seq<Token>, i: int, closed: nat) -> int
    decreases i,
{
    if i <= 0 {
        -1
    } else {
        match at(list, i - 1) {
            Token::Symbol(c) => if c == ')' as int || c == ']' as int || c == '}' as int {
                opener(list, i - 1, closed + 1)
            } else if c == '(' as int || c == '[' as int || c == '{' as int {
                if closed == 0 {
                    i - 1
                } else {
                    opener(list, i - 1, (closed - 1) as nat)
                }
            } else {
                opener(list, i - 1, closed)
            },
            _ => opener(list, i - 1, closed),
        }
    }
}

/// How many brackets more are opened than closed before place `i`.
pub open spec fn nesting(list: Seq<Token>, i: int) -> int
    decreases i,
{
    if i <= 0 {
        0
    } else {
        let before = nesting(list, i - 1);
        match at(list, i - 1) {
            Token::Symbol(c) => if c == ')' as int || c == ']' as int || c == '}' as int {
                before - 1
            } else if c == '(' as int || c == '[' as int || c == '{' as int {
                before + 1
            } else {
                before
            },
            _ => before,
        }
    }
}

/// A number of one to four decimal digits.
pub open spec fn small_number(token: Token) -> bool {
    match token {
        Token::Number(digits) => 0 < digits.len() <= 4 && forall|i: int|
            0 <= i < digits.len() ==> is_digit(#[trigger] digits[i]),
        _ => false,
    }
}

/// Whether a text names a filter or a test that can harm whatever its arguments are.
pub open spec fn names_harm(text: Seq<char>) -> bool {
    text == "format"@ || text == "divisibleby"@ || text == "chain"@
}

/// What may stand among arguments that are known to be harmless: small numbers, names, and texts
/// that name nothing harmful.
pub open spec fn plain_argument(token: Token) -> bool {
    match token {
        Token::Number(_) => small_number(token),
        Token::Name(_) => true,
        Token::Text(text) => !names_harm(text) && forall|i: int|
            0 <= i < text.len() ==> (#[trigger] text[i]) != '\\' && !is_space(text[i]),
        Token::Symbol(_) => token == symbol(',') || token == symbol('='),
    }
}

/// Whether the text at a place is followed by another one, so that the two are one.
pub open spec fn goes_on(list: Seq<Token>, i: int) -> bool {
    at(list, i) is Text && at(list, i + 1) is Text
}

/// Whether arguments in brackets, all of them plain, start at a place.
pub open spec fn plain_call(list: Seq<Token>, i: int) -> bool {
    &&& at(list, i) == symbol('(')
    &&& exists|end: int|
        i < end < list.len() && #[trigger] list[end] == symbol(')') && forall|j: int|
            i < j < end ==> plain_argument(#[trigger] list[j]) && !goes_on(list, j)
}

/// Whether at most two arguments in brackets start at a place, none of them spread.
pub open spec fn stepless_call(list: Seq<Token>, i: int) -> bool {
    &&& at(list, i) == symbol('(')
    &&& forall|j: int|
        i < j < list.len() && opener(list, j, 0) == i ==> (#[trigger] list[j]) != symbol('*')
    &&& forall|j: int, k: int|
        i < j < k < list.len() && (#[trigger] list[j]) == symbol(',') && (
        #[trigger] list[k]) == symbol(',') && opener(list, j, 0) == i ==> opener(list, k, 0)
            != i
}

/// A small number that is not zero.
pub open spec fn small_nonzero(token: Token) -> bool {
    small_number(token) && token->Number_0[0] != '0'
}

/// Whether a number that is not zero stands at a place, with or without brackets.
pub open spec fn nonzero_argument(list: Seq<Token>, i: int) -> bool {
    ||| small_nonzero(at(list, i))
    ||| at(list, i) == symbol('(') && small_nonzero(at(list, i + 1)) && at(list, i + 2)
        == symbol(')')
}

/// Whether a filter at a place is applied to a single text that asks for no key, width or
/// precision.
pub open spec fn after_plain_format(list: Seq<Token>, i: int) -> bool {
    &&& at(list, i - 1) == symbol('|')
    &&& !goes_on(list, i - 3)
    &&& match at(list, i - 2) {
        Token::Text(text) => forall|k: int|
            0 <= k < text.len() ==> !is_digit(#[trigger] text[k]) && text[k] != '(' && text[k]
                != '*' && text[k] != '\\',
        _ => false,
    }
}

/// Whether an expression names an attribute as an argument.
pub open spec fn names_attribute(list: Seq<Token>) -> bool {
    exists|j: int| 0 <= j < list.len() && #[trigger] list[j] == Token::Name("attribute"@)
}

/// Whether the name at a place is used harmlessly.
pub open spec fn name_admitted(list: Seq<Token>, i: int, name: Seq<char>) -> bool {
    if name == "range"@ {
        plain_call(list, i + 1) || stepless_call(list, i + 1)
    } else if name == "indent"@ || name == "batch"@ || name == "slice"@ || name == "map"@ || name
        == "select"@ || name == "reject"@ || name == "selectattr"@ || name == "rejectattr"@ {
        at(list, i + 1) != symbol('(') || plain_call(list, i + 1)
    } else if name == "sort"@ {
        at(list, i + 1) != symbol('(') || !names_attribute(list)
    } else if name == "divisibleby"@ {
        nonzero_argument(list, i + 1)
    } else if name == "format"@ {
        after_plain_format(list, i)
    } else {
        name != "chain"@
    }
}

/// Whether the colon at a place is followed by the step of a slice.
pub open spec fn before_step(list: Seq<Token>, i: int) -> bool {
    let open = opener(list, i, 0);
    &&& at(list, open) == symbol('[')
    &&& exists|j: int|
        open < j < i && #[trigger] list[j] == symbol(':') && opener(list, j, 0) == open
}

/// Whether the step behind the colon at a place is none, or a small number.
pub open spec fn plain_step(list: Seq<Token>, i: int) -> bool {
    ||| at(list, i + 1) == symbol(']')
    ||| small_number(at(list, i + 1)) && at(list, i + 2) == symbol(']')
}

/// Whether a token can be the end of an operand, so that a bracket behind it belongs to it.
pub open spec fn ends_operand(token: Token) -> bool {
    match token {
        Token::Name(name) => !(name == "and"@ || name == "or"@ || name == "not"@ || name == "in"@
            || name == "is"@ || name == "if"@ || name == "else"@),
        Token::Number(_) => false,
        Token::Text(_) => true,
        Token::Symbol(_) => token == symbol(')') || token == symbol(']') || token == symbol('}'),
    }
}

/// Whether a name makes a sequence.
pub open spec fn makes_sequence(name: Seq<char>) -> bool {
    ||| name == "range"@
    ||| name == "list"@
    ||| name == "split"@
    ||| name == "lines"@
    ||| name == "items"@
    ||| name == "dictsort"@
    ||| name == "groupby"@
    ||| name == "map"@
    ||| name == "select"@
    ||| name == "reject"@
    ||| name == "selectattr"@
    ||| name == "rejectattr"@
    ||| name == "sort"@
    ||| name == "unique"@
    ||| name == "reverse"@
    ||| name == "batch"@
    ||| name == "slice"@
    ||| name == "zip"@
}

/// Whether a name makes a text longer by more than its own length.
pub open spec fn multiplies_text(name: Seq<char>) -> bool {
    name == "replace"@ || name == "join"@ || name == "indent"@
}

/// Whether a colon stands directly in the bracket that opens at a place.
pub open spec fn has_colon(list: Seq<Token>, i: int) -> bool {
    exists|j: int|
        i < j < list.len() && #[trigger] list[j] == symbol(':') && opener(list, j, 0) == i
}

/// Whether no sequence comes from the token at a place: it is no list, no tuple, no slice and no
/// name that makes one. Nor is it a name that multiplies a text.
pub open spec fn no_sequence(list: Seq<Token>, i: int) -> bool {
    match at(list, i) {
        Token::Name(name) => !makes_sequence(name) && !multiplies_text(name),
        Token::Symbol(c) => if c == '[' as int {
            ends_operand(at(list, i - 1)) && !has_colon(list, i)
        } else if c == '(' as int {
            at(list, i + 1) != symbol(')') || ends_operand(at(list, i - 1))
        } else if c == ',' as int {
            let open = opener(list, i, 0);
            at(list, open) == symbol('{') || (at(list, open) == symbol('(')
                && ends_operand(at(list, open - 1)))
        } else {
            true
        },
        _ => true,
    }
}

/// Whether a `*` at a place stands between two small numbers, and both are operands of nothing
/// else that could go first.
pub open spec fn literal_product(list: Seq<Token>, i: int) -> bool {
    &&& small_number(at(list, i - 1))
    &&& small_number(at(list, i + 1))
    &&& at(list, i - 2) != symbol('*')
    &&& at(list, i - 2) != symbol('.')
    &&& at(list, i + 2) != symbol('*')
    &&& at(list, i + 2) != symbol('.')
    &&& at(list, i + 2) != symbol('|')
    &&& at(list, i + 2) != symbol('[')
    &&& at(list, i + 2) != symbol('(')
}

/// Whether the token at a place is used harmlessly.
pub open spec fn token_admitted(list: Seq<Token>, i: int) -> bool {
    match at(list, i) {
        Token::Name(name) => name_admitted(list, i, name),
        Token::Symbol(c) => if c == ':' as int {
            before_step(list, i) ==> plain_step(list, i)
        } else if c == '*' as int {
            literal_product(list, i) || forall|j: int|
                0 <= j < list.len() ==> #[trigger] no_sequence(list, j)
        } else if c == '}' as int {
            nesting(list, i) > 0
        } else {
            true
        },
        _ => true,
    }
}

/// Whether an expression is handed to the engine.
pub open spec fn admitted(expr: Seq<char>) -> bool {
    &&& tokens(expr).len() <= MAX_TOKENS
    &&& forall|i: int| 0 <= i < tokens(expr).len() ==> #[trigger] token_admitted(tokens(expr), i)
    &&& forall|i: int|
        0 <= i <= tokens(expr).len() ==> #[trigger] nesting(tokens(expr), i) <= MAX_NESTING
}

/// A token of an expression, cut out.
pub enum Lexeme {
    Name(String),
    Number(String),
    Text(String),
    Symbol(char),
}

impl View for Lexeme {
    type V = Token;

    open spec fn view(&self) -> Token {
        match self {
            Lexeme::Name(name) => Token::Name(name@),
            Lexeme::Number(digits) => Token::Number(digits@),
            Lexeme::Text(text) => Token::Text(text@),
            Lexeme::Symbol(c) => symbol(*c),
        }
    }
}

/// The tokens of a list.
pub open spec fn token_views(list: Seq<Lexeme>) -> Seq<Token> {
    Seq::new(list.len(), |i: int| list[i]@)
}

fn space(c: char) -> (r: bool)
    ensures
        r == is_space(c),
{
    c == ' ' || c == '\t' || c == '\n' || c == '\r' || c == '\x0c'
}

fn digit(c: char) -> (r: bool)
    ensures
        r == is_digit(c),
{
    '0' <= c && c <= '9'
}

fn word(c: char) -> (r: bool)
    ensures
        r == is_word(c),
{
    digit(c) || ('a' <= c && c <= 'z') || ('A' <= c && c <= 'Z') || c == '_'
}

/// Where the text that starts at `from` ends.
fn text_end(s: &Vec<char>, from: usize, quote: char) -> (r: usize)
    requires
        from <= s@.len(),
    ensures
        r == from + text_len(s@.skip(from as int), quote),
        r <= s@.len(),
{
    let mut i: usize = from;
    while i < s.len() && s[i] != quote
        invariant
            from <= i <= s@.len(),
            from + text_len(s@.skip(from as int), quote) == i + text_len(
                s@.skip(i as int),
                quote,
            ),
        decreases s@.len() - i,
    {
        let ghost left = s@.skip(i as int);
        assert(left[0] == s@[i as int]);
        if s[i] == '\\' && i + 1 < s.len() {
            assert(left.skip(2) =~= s@.skip(i + 2));
            i += 2;
        } else {
            assert(left.skip(1) =~= s@.skip(i + 1));
            i += 1;
        }
    }
    if i < s.len() {
        assert(s@.skip(i as int)[0] == s@[i as int]);
    }
    i
}

/// Where the word that starts at `from` ends.
fn word_end(s: &Vec<char>, from: usize) -> (r: usize)
    requires
        from <= s@.len(),
    ensures
        r == from + word_len(s@.skip(from as int)),
        r <= s@.len(),
{
    let mut i: usize = from;
    while i < s.len() && word(s[i])
        invariant
            from <= i <= s@.len(),
            from + word_len(s@.skip(from as int)) == i + word_len(s@.skip(i as int)),
        decreases s@.len() - i,
    {
        let ghost left = s@.skip(i as int);
        assert(left[0] == s@[i as int]);
        assert(left.skip(1) =~= s@.skip(i + 1));
        i += 1;
    }
    if i < s.len() {
        assert(s@.skip(i as int)[0] == s@[i as int]);
    }
    i
}

/// Cuts the token that starts at `i` out; what follows it starts at the place that comes with it.
fn cut_token(s: &Vec<char>, i: usize) -> (r: (Lexeme, usize))
    requires
        i < s@.len(),
        !is_space(s@[i as int]),
    ensures
        i < r.1 <= s@.len(),
        tokens(s@.skip(i as int)) == seq![r.0@] + tokens(s@.skip(r.1 as int)),
{
    let ghost left = s@.skip(i as int);
    let len = s.len();
    let c = s[i];
    assert(left[0] == c);
    assert(left.skip(1) =~= s@.skip(i + 1));
    if c == '"' || c == '\'' {
        let end = text_end(s, i + 1, c);
        let ghost n = text_len(left.skip(1), c);
        assert(left.subrange(1, (n + 1) as int) =~= s@.subrange(i + 1, end as int));
        let text = text_of(s, i + 1, end);
        if end < len {
            assert(left.skip((n + 2) as int) =~= s@.skip(end + 1));
            (Lexeme::Text(text), end + 1)
        } else {
            assert(s@.skip(end as int) =~= Seq::<char>::empty());
            (Lexeme::Text(text), end)
        }
    } else if word(c) {
        let end = word_end(s, i);
        let ghost n = word_len(left);
        assert(n > 0);
        assert(left.take(n as int) =~= s@.subrange(i as int, end as int));
        assert(left.skip(n as int) =~= s@.skip(end as int));
        let text = text_of(s, i, end);
        if digit(c) {
            (Lexeme::Number(text), end)
        } else {
            (Lexeme::Name(text), end)
        }
    } else {
        (Lexeme::Symbol(c), i + 1)
    }
}

/// Cuts an expression into its tokens.
pub fn tokenize(expr: &str) -> (r: Vec<Lexeme>)
    ensures
        token_views(r@) == tokens(expr@),
{
    let s = char_vec(expr);
    let mut out: Vec<Lexeme> = Vec::new();
    let mut i: usize = 0;
    assert(s@.skip(0) =~= s@);
    assert(token_views(out@) + tokens(s@) =~= tokens(s@));
    while i < s.len()
        invariant
            i <= s@.len(),
            token_views(out@) + tokens(s@.skip(i as int)) == tokens(s@),
        decreases s@.len() - i,
    {
        let ghost left = s@.skip(i as int);
        let ghost before = token_views(out@);
        assert(left[0] == s@[i as int]);
        if space(s[i]) {
            assert(left.skip(1) =~= s@.skip(i + 1));
            i += 1;
        } else {
            let (lexeme, next) = cut_token(&s, i);
            let ghost token = lexeme@;
            out.push(lexeme);
            assert(token_views(out@) =~= before.push(token));
            assert(before.push(token) + tokens(s@.skip(next as int)) =~= before + (seq![token]
                + tokens(s@.skip(next as int))));
            i = next;
        }
    }
    assert(s@.skip(i as int) =~= Seq::<char>::empty());
    assert(token_views(out@) + Seq::<Token>::empty() =~= token_views(out@));
    out
}

/// Whether the token at a place is a symbol.
fn symbol_at(list: &Vec<Lexeme>, i: usize, c: char) -> (r: bool)
    requires
        c != ' ',
    ensures
        r == (at(token_views(list@), i as int) == symbol(c)),
{
    if i < list.len() {
        match &list[i] {
            Lexeme::Symbol(d) => *d == c,
            _ => false,
        }
    } else {
        false
    }
}

/// The place of the innermost bracket that is open before a place.
fn open_before(list: &Vec<Lexeme>, i: usize) -> (r: Option<usize>)
    requires
        i <= list@.len(),
    ensures
        match r {
            Some(open) => opener(token_views(list@), i as int, 0) == open && open < i,
            None => opener(token_views(list@), i as int, 0) == -1,
        },
{
    let ghost all = token_views(list@);
    let mut k: usize = i;
    let mut closed: usize = 0;
    while k > 0
        invariant
            k <= i <= list@.len(),
            closed <= i - k,
            all == token_views(list@),
            opener(all, i as int, 0) == opener(all, k as int, closed as nat),
        decreases k,
    {
        k -= 1;
        assert(at(all, k as int) == list@[k as int]@);
        match &list[k] {
            Lexeme::Symbol(c) => {
                let c = *c;
                if c == ')' || c == ']' || c == '}' {
                    closed += 1;
                } else if c == '(' || c == '[' || c == '{' {
                    if closed == 0 {
                        return Some(k);
                    }
                    closed -= 1;
                }
            },
            _ => {},
        }
    }
    None
}

fn is_small_number(lexeme: &Lexeme) -> (r: bool)
    ensures
        r == small_number(lexeme@),
{
    match lexeme {
        Lexeme::Number(digits) => {
            let chars = char_vec(digits.as_str());
            if chars.len() == 0 || chars.len() > 4 {
                return false;
            }
            let mut i: usize = 0;
            while i < chars.len()
                invariant
                    i <= chars@.len(),
                    lexeme@ == Token::Number(chars@),
                    0 < chars@.len() <= 4,
                    forall|j: int| 0 <= j < i ==> is_digit(#[trigger] chars@[j]),
                decreases chars@.len() - i,
            {
                if !digit(chars[i]) {
                    assert(!is_digit(chars@[i as int]));
                    return false;
                }
                i += 1;
            }
            true
        },
        _ => false,
    }
}

fn small_number_at(list: &Vec<Lexeme>, i: usize) -> (r: bool)
    ensures
        r == small_number(at(token_views(list@), i as int)),
{
    i < list.len() && is_small_number(&list[i])
}

fn is_plain_argument(lexeme: &Lexeme) -> (r: bool)
    ensures
        r == plain_argument(lexeme@),
{
    match lexeme {
        Lexeme::Number(_) => is_small_number(lexeme),
        Lexeme::Name(_) => true,
        Lexeme::Text(text) => {
            let name = text.as_str();
            if same_text(name, "format") || same_text(name, "divisibleby") || same_text(
                name,
                "chain",
            ) {
                return false;
            }
            let chars = char_vec(text.as_str());
            let mut i: usize = 0;
            while i < chars.len()
                invariant
                    i <= chars@.len(),
                    lexeme@ == Token::Text(chars@),
                    forall|j: int|
                        0 <= j < i ==> (#[trigger] chars@[j]) != '\\' && !is_space(chars@[j]),
                decreases chars@.len() - i,
            {
                let c = chars[i];
                if c == '\\' || space(c) {
                    assert(chars@[i as int] == c);
                    return false;
                }
                i += 1;
            }
            true
        },
        Lexeme::Symbol(c) => *c == ',' || *c == '=',
    }
}

fn text_at(list: &Vec<Lexeme>, i: usize) -> (r: bool)
    ensures
        r == (at(token_views(list@), i as int) is Text),
{
    if i < list.len() {
        match &list[i] {
            Lexeme::Text(_) => true,
            _ => false,
        }
    } else {
        false
    }
}

fn text_goes_on(list: &Vec<Lexeme>, i: usize) -> (r: bool)
    requires
        i < list@.len(),
    ensures
        r == goes_on(token_views(list@), i as int),
{
    text_at(list, i) && i < list.len() && text_at(list, i + 1)
}

fn has_plain_call(list: &Vec<Lexeme>, i: usize) -> (r: bool)
    ensures
        r == plain_call(token_views(list@), i as int),
{
    let ghost all = token_views(list@);
    if i >= list.len() || !symbol_at(list, i, '(') {
        return false;
    }
    let mut end: usize = i + 1;
    while end < list.len()
        invariant
            i < end <= list@.len(),
            all == token_views(list@),
            at(all, i as int) == symbol('('),
            forall|j: int| i < j < end ==> plain_argument(#[trigger] all[j]) && !goes_on(all, j),
        decreases list@.len() - end,
    {
        assert(all[end as int] == list@[end as int]@);
        if symbol_at(list, end, ')') {
            return true;
        }
        if !is_plain_argument(&list[end]) || text_goes_on(list, end) {
            assert(!(plain_argument(all[end as int]) && !goes_on(all, end as int)));
            assert forall|e: int|
                i < e < all.len() && #[trigger] all[e] == symbol(')') implies exists|j: int|
                i < j < e && !(plain_argument(#[trigger] all[j]) && !goes_on(all, j)) by {
                if e == end {
                    assert(false);
                }
                if e <= end {
                    assert(e < end);
                    assert(plain_argument(all[e]));
                }
            }
            return false;
        }
        end += 1;
    }
    assert forall|e: int| i < e < all.len() implies #[trigger] all[e] != symbol(')') by {
        assert(plain_argument(all[e]));
    }
    false
}

fn has_stepless_call(list: &Vec<Lexeme>, i: usize) -> (r: bool)
    ensures
        r == stepless_call(token_views(list@), i as int),
{
    let ghost all = token_views(list@);
    if i >= list.len() || !symbol_at(list, i, '(') {
        return false;
    }
    let mut commas: bool = false;
    let ghost mut first: int = -1;
    let mut j: usize = i + 1;
    while j < list.len()
        invariant
            i < j <= list@.len(),
            all == token_views(list@),
            at(all, i as int) == symbol('('),
            forall|k: int|
                i < k < j && opener(all, k, 0) == i ==> (#[trigger] all[k]) != symbol('*'),
            commas ==> i < first < j && all[first] == symbol(',') && opener(all, first, 0)
                == i,
            forall|k: int|
                i < k < j && (#[trigger] all[k]) == symbol(',') && opener(all, k, 0) == i
                    ==> commas && k == first,
        decreases list@.len() - j,
    {
        assert(all[j as int] == list@[j as int]@);
        let star = symbol_at(list, j, '*');
        let comma = symbol_at(list, j, ',');
        if star || comma {
            let own = match open_before(list, j) {
                Some(open) => open == i,
                None => false,
            };
            if own {
                if star {
                    assert(all[j as int] == symbol('*'));
                    return false;
                }
                if commas {
                    assert(all[first] == symbol(',') && all[j as int] == symbol(','));
                    return false;
                }
                commas = true;
                proof {
                    first = j as int;
                }
            }
        }
        j += 1;
    }
    true
}

fn small_nonzero_at(list: &Vec<Lexeme>, i: usize) -> (r: bool)
    ensures
        r == small_nonzero(at(token_views(list@), i as int)),
{
    if i < list.len() && is_small_number(&list[i]) {
        match &list[i] {
            Lexeme::Number(digits) => {
                let chars = char_vec(digits.as_str());
                chars[0] != '0'
            },
            _ => false,
        }
    } else {
        false
    }
}

fn has_nonzero_argument(list: &Vec<Lexeme>, i: usize) -> (r: bool)
    requires
        i <= list@.len(),
    ensures
        r == nonzero_argument(token_views(list@), i as int),
{
    if i >= list.len() {
        return false;
    }
    small_nonzero_at(list, i) || (symbol_at(list, i, '(') && small_nonzero_at(list, i + 1) && i + 1
        < list.len() && symbol_at(list, i + 2, ')'))
}

fn is_after_plain_format(list: &Vec<Lexeme>, i: usize) -> (r: bool)
    requires
        i < list@.len(),
    ensures
        r == after_plain_format(token_views(list@), i as int),
{
    if i < 2 || !symbol_at(list, i - 1, '|') {
        return false;
    }
    if i > 2 && text_goes_on(list, i - 3) {
        return false;
    }
    assert(at(token_views(list@), i - 2) == list@[i - 2]@);
    match &list[i - 2] {
        Lexeme::Text(text) => {
            let chars = char_vec(text.as_str());
            let mut k: usize = 0;
            while k < chars.len()
                invariant
                    k <= chars@.len(),
                    2 <= i < list@.len(),
                    at(token_views(list@), i - 1) == symbol('|'),
                    !goes_on(token_views(list@), i - 3),
                    at(token_views(list@), i - 2) == Token::Text(chars@),
                    forall|j: int|
                        0 <= j < k ==> !is_digit(#[trigger] chars@[j]) && chars@[j] != '('
                            && chars@[j] != '*' && chars@[j] != '\\',
                decreases chars@.len() - k,
            {
                let c = chars[k];
                if digit(c) || c == '(' || c == '*' || c == '\\' {
                    assert(chars@[k as int] == c);
                    assert(!after_plain_format(token_views(list@), i as int)) by {
                        let seen = at(token_views(list@), i - 2)->Text_0;
                        assert(seen[k as int] == c);
                    }
                    return false;
                }
                k += 1;
            }
            true
        },
        _ => false,
    }
}

fn mentions_attribute(list: &Vec<Lexeme>) -> (r: bool)
    ensures
        r == names_attribute(token_views(list@)),
{
    let ghost all = token_views(list@);
    let mut i: usize = 0;
    while i < list.len()
        invariant
            i <= list@.len(),
            all == token_views(list@),
            forall|j: int| 0 <= j < i ==> #[trigger] all[j] != Token::Name("attribute"@),
        decreases list@.len() - i,
    {
        assert(all[i as int] == list@[i as int]@);
        if let Lexeme::Name(name) = &list[i] {
            if same_text(name.as_str(), "attribute") {
                return true;
            }
        }
        i += 1;
    }
    false
}

fn admits_name(list: &Vec<Lexeme>, i: usize, name: &str) -> (r: bool)
    requires
        i < list@.len(),
    ensures
        r == name_admitted(token_views(list@), i as int, name@),
{
    let next = if i < list.len() {
        i + 1
    } else {
        i
    };
    if same_text(name, "range") {
        has_plain_call(list, next) || has_stepless_call(list, next)
    } else if same_text(name, "indent") || same_text(name, "batch") || same_text(name, "slice")
        || same_text(name, "map") || same_text(name, "select") || same_text(name, "reject")
        || same_text(name, "selectattr") || same_text(name, "rejectattr") {
        !symbol_at(list, next, '(') || has_plain_call(list, next)
    } else if same_text(name, "sort") {
        !symbol_at(list, next, '(') || !mentions_attribute(list)
    } else if same_text(name, "divisibleby") {
        has_nonzero_argument(list, next)
    } else if same_text(name, "format") {
        is_after_plain_format(list, i)
    } else {
        !same_text(name, "chain")
    }
}

fn is_before_step(list: &Vec<Lexeme>, i: usize) -> (r: bool)
    requires
        i < list@.len(),
    ensures
        r == before_step(token_views(list@), i as int),
{
    let ghost all = token_views(list@);
    let open = match open_before(list, i) {
        Some(open) => open,
        None => {
            return false;
        },
    };
    if !symbol_at(list, open, '[') {
        return false;
    }
    let mut j: usize = open + 1;
    while j < i
        invariant
            open < j <= i < list@.len(),
            all == token_views(list@),
            opener(all, i as int, 0) == open,
            at(all, open as int) == symbol('['),
            forall|k: int|
                open < k < j && #[trigger] all[k] == symbol(':') ==> opener(all, k, 0)
                    != open,
        decreases i - j,
    {
        assert(all[j as int] == list@[j as int]@);
        if symbol_at(list, j, ':') {
            let own = match open_before(list, j) {
                Some(other) => other == open,
                None => false,
            };
            if own {
                assert(all[j as int] == symbol(':'));
                return true;
            }
        }
        j += 1;
    }
    false
}

fn is_operand_end(list: &Vec<Lexeme>, i: usize) -> (r: bool)
    requires
        i < list@.len(),
    ensures
        r == ends_operand(at(token_views(list@), i as int)),
{
    match &list[i] {
        Lexeme::Name(name) => {
            let name = name.as_str();
            !(same_text(name, "and") || same_text(name, "or") || same_text(name, "not")
                || same_text(name, "in") || same_text(name, "is") || same_text(name, "if")
                || same_text(name, "else"))
        },
        Lexeme::Number(_) => false,
        Lexeme::Text(_) => true,
        Lexeme::Symbol(c) => *c == ')' || *c == ']' || *c == '}',
    }
}

fn names_sequence(name: &str) -> (r: bool)
    ensures
        r == makes_sequence(name@),
{
    same_text(name, "range") || same_text(name, "list") || same_text(name, "split") || same_text(
        name,
        "lines",
    ) || same_text(name, "items") || same_text(name, "dictsort") || same_text(name, "groupby")
        || same_text(name, "map") || same_text(name, "select") || same_text(name, "reject")
        || same_text(name, "selectattr") || same_text(name, "rejectattr") || same_text(name, "sort")
        || same_text(name, "unique") || same_text(name, "reverse") || same_text(name, "batch")
        || same_text(name, "slice") || same_text(name, "zip")
}

fn holds_colon(list: &Vec<Lexeme>, i: usize) -> (r: bool)
    requires
        i < list@.len(),
    ensures
        r == has_colon(token_views(list@), i as int),
{
    let ghost all = token_views(list@);
    let len = list.len();
    let mut j: usize = i + 1;
    while j < len
        invariant
            i < j <= len == list@.len(),
            all == token_views(list@),
            forall|k: int|
                i < k < j && #[trigger] all[k] == symbol(':') ==> opener(all, k, 0) != i,
        decreases len - j,
    {
        assert(all[j as int] == list@[j as int]@);
        if symbol_at(list, j, ':') {
            let own = match open_before(list, j) {
                Some(open) => open == i,
                None => false,
            };
            if own {
                assert(all[j as int] == symbol(':'));
                return true;
            }
        }
        j += 1;
    }
    false
}

fn brings_no_sequence(list: &Vec<Lexeme>, i: usize) -> (r: bool)
    requires
        i < list@.len(),
    ensures
        r == no_sequence(token_views(list@), i as int),
{
    let ghost all = token_views(list@);
    let len = list.len();
    assert(at(all, i as int) == list@[i as int]@);
    match &list[i] {
        Lexeme::Name(name) => {
            let name = name.as_str();
            !names_sequence(name) && !same_text(name, "replace") && !same_text(name, "join")
                && !same_text(name, "indent")
        },
        Lexeme::Symbol(c) => {
            if *c == '[' {
                i > 0 && is_operand_end(list, i - 1) && !holds_colon(list, i)
            } else if *c == '(' {
                !symbol_at(list, i + 1, ')') || (i > 0 && is_operand_end(list, i - 1))
            } else if *c == ',' {
                match open_before(list, i) {
                    Some(open) => symbol_at(list, open, '{') || (symbol_at(list, open, '(') && open
                        > 0 && is_operand_end(list, open - 1)),
                    None => false,
                }
            } else {
                true
            }
        },
        _ => true,
    }
}

fn without_sequences(list: &Vec<Lexeme>) -> (r: bool)
    ensures
        r == forall|j: int|
            0 <= j < list@.len() ==> #[trigger] no_sequence(token_views(list@), j),
{
    let mut i: usize = 0;
    while i < list.len()
        invariant
            i <= list@.len(),
            forall|j: int| 0 <= j < i ==> #[trigger] no_sequence(token_views(list@), j),
        decreases list@.len() - i,
    {
        if !brings_no_sequence(list, i) {
            assert(!no_sequence(token_views(list@), i as int));
            return false;
        }
        i += 1;
    }
    true
}

fn is_literal_product(list: &Vec<Lexeme>, i: usize) -> (r: bool)
    requires
        i < list@.len(),
    ensures
        r == literal_product(token_views(list@), i as int),
{
    let len = list.len();
    if i == 0 || i + 1 >= len {
        return false;
    }
    if i > 1 && (symbol_at(list, i - 2, '*') || symbol_at(list, i - 2, '.')) {
        return false;
    }
    let after = i + 2;
    small_number_at(list, i - 1) && small_number_at(list, i + 1) && !symbol_at(list, after, '*')
        && !symbol_at(list, after, '.') && !symbol_at(list, after, '|') && !symbol_at(
        list,
        after,
        '[',
    ) && !symbol_at(list, after, '(')
}

fn admits_token(list: &Vec<Lexeme>, i: usize, open: i64) -> (r: bool)
    requires
        i < list@.len(),
        open == nesting(token_views(list@), i as int),
    ensures
        r == token_admitted(token_views(list@), i as int),
{
    let ghost all = token_views(list@);
    assert(at(all, i as int) == list@[i as int]@);
    let len = list.len();
    match &list[i] {
        Lexeme::Name(name) => admits_name(list, i, name.as_str()),
        Lexeme::Symbol(c) => {
            if *c == ':' {
                !is_before_step(list, i) || symbol_at(list, i + 1, ']') || (small_number_at(
                    list,
                    i + 1,
                ) && i + 1 < len && symbol_at(list, i + 2, ']'))
            } else if *c == '*' {
                is_literal_product(list, i) || without_sequences(list)
            } else if *c == '}' {
                open > 0
            } else {
                true
            }
        },
        _ => true,
    }
}

/// Whether an expression is handed to the engine.
pub fn is_admitted(expr: &str) -> (r: bool)
    ensures
        r == admitted(expr@),
{
    let list = tokenize(expr);
    let ghost all = token_views(list@);
    if list.len() > MAX_TOKENS {
        return false;
    }
    let mut open: i64 = 0;
    let mut i: usize = 0;
    while i < list.len()
        invariant
            i <= list@.len() <= MAX_TOKENS,
            all == token_views(list@),
            all == tokens(expr@),
            open == nesting(all, i as int),
            -i <= open <= i,
            forall|j: int| 0 <= j < i ==> #[trigger] token_admitted(all, j),
            forall|j: int| 0 <= j <= i ==> #[trigger] nesting(all, j) <= MAX_NESTING,
        decreases list@.len() - i,
    {
        assert(at(all, i as int) == list@[i as int]@);
        if !admits_token(&list, i, open) {
            assert(!token_admitted(tokens(expr@), i as int));
            return false;
        }
        match &list[i] {
            Lexeme::Symbol(c) => {
                let c = *c;
                if c == ')' || c == ']' || c == '}' {
                    open -= 1;
                } else if c == '(' || c == '[' || c == '{' {
                    open += 1;
                }
            },
            _ => {},
        }
        assert(open == nesting(all, i + 1));
        if open > MAX_NESTING as i64 {
            assert(nesting(tokens(expr@), i + 1) > MAX_NESTING);
            return false;
        }
        i += 1;
    }
    true
}

} // verus!
