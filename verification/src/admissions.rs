//! How expressions are cut into tokens, and which of them are admitted.

use crate::expression::{
    admitted, at, before_step, goes_on, is_digit, is_space, is_word, literal_product, nesting,
    opener, plain_argument, plain_call, small_number, symbol, text_len, token_admitted, tokens,
    word_len, Token, MAX_NESTING, MAX_TOKENS,
};
use vstd::prelude::*;

verus! {

/// Spaces, digits and the characters of words are those of ASCII.
pub proof fn characters_have_kinds(c: char)
    ensures
        is_space(c) <==> c == ' ' || c == '\t' || c == '\n' || c == '\r' || c == '\x0c',
        is_digit(c) <==> '0' <= c <= '9',
        is_word(c) <==> is_digit(c) || 'a' <= c <= 'z' || 'A' <= c <= 'Z' || c == '_',
{
}

/// A space before a text counts for nothing.
pub proof fn spaces_count_for_nothing(c: char, s: Seq<char>)
    requires
        is_space(c),
    ensures
        tokens(seq![c] + s) == tokens(s),
        tokens(seq![]).len() == 0,
{
    assert((seq![c] + s).skip(1) =~= s);
}

/// A character of its own kind is a token of its own.
pub proof fn symbols_stand_alone(c: char, s: Seq<char>)
    requires
        !is_space(c),
        !is_word(c),
        c != '"',
        c != '\'',
    ensures
        tokens(seq![c] + s) == seq![symbol(c)] + tokens(s),
{
    assert((seq![c] + s).skip(1) =~= s);
}

/// A word is one token, up to the first character that belongs to none: a number where it begins
/// with a digit, else a name.
pub proof fn words_are_tokens(word: Seq<char>, s: Seq<char>)
    requires
        word.len() > 0,
        forall|i: int| 0 <= i < word.len() ==> is_word(#[trigger] word[i]),
        s.len() > 0 ==> !is_word(s[0]),
    ensures
        tokens(word + s) == seq![
            if is_digit(word[0]) {
                Token::Number(word)
            } else {
                Token::Name(word)
            },
        ] + tokens(s),
{
    lemma_word(word, s);
    let all = word + s;
    assert(all[0] == word[0]);
    assert(is_word(word[0]));
    assert(all.take(word.len() as int) =~= word);
    assert(all.skip(word.len() as int) =~= s);
}

proof fn lemma_word(word: Seq<char>, s: Seq<char>)
    requires
        forall|i: int| 0 <= i < word.len() ==> is_word(#[trigger] word[i]),
        s.len() > 0 ==> !is_word(s[0]),
    ensures
        word_len(word + s) == word.len(),
    decreases word.len(),
{
    let all = word + s;
    if word.len() == 0 {
        assert(all =~= s);
    } else {
        assert(is_word(word[0]));
        assert(all.skip(1) =~= word.skip(1) + s);
        assert forall|i: int| 0 <= i < word.skip(1).len() implies is_word(
            #[trigger] word.skip(1)[i],
        ) by {
            assert(word[i + 1] == word.skip(1)[i]);
        }
        lemma_word(word.skip(1), s);
    }
}

/// What stands between two quotes of one kind is one token, where it holds neither that quote nor a
/// backslash.
pub proof fn quoted_texts_are_tokens(quote: char, text: Seq<char>, s: Seq<char>)
    requires
        quote == '"' || quote == '\'',
        !text.contains(quote),
        !text.contains('\\'),
    ensures
        tokens(seq![quote] + text + seq![quote] + s) == seq![Token::Text(text)] + tokens(s),
{
    let all = seq![quote] + text + seq![quote] + s;
    let n = text.len();
    assert(all.skip(1) =~= text + (seq![quote] + s));
    lemma_text(quote, text, s);
    assert(all.subrange(1, (n + 1) as int) =~= text);
    assert(all.skip((n + 2) as int) =~= s);
}

/// A text between quotes goes on to the first quote of its kind, where a backslash takes the next
/// character along; what comes after the quote is cut on its own.
pub proof fn escapes_are_taken_along(quote: char, c: char, s: Seq<char>)
    requires
        quote == '"' || quote == '\'',
    ensures
        text_len(seq!['\\', c] + s, quote) == 2 + text_len(s, quote),
        c != '\\' && c != quote ==> text_len(seq![c] + s, quote) == 1 + text_len(s, quote),
        text_len(seq![quote] + s, quote) == 0,
        text_len(seq![], quote) == 0,
        text_len(s, quote) < s.len() ==> tokens(seq![quote] + s) == seq![
            Token::Text(s.take(text_len(s, quote) as int)),
        ] + tokens(s.skip((text_len(s, quote) + 1) as int)),
{
    assert((seq!['\\', c] + s).skip(2) =~= s);
    assert((seq![c] + s).skip(1) =~= s);
    let all = seq![quote] + s;
    let n = text_len(s, quote);
    assert(all.skip(1) =~= s);
    if n < s.len() {
        assert(all.subrange(1, (n + 1) as int) =~= s.take(n as int));
        assert(all.skip((n + 2) as int) =~= s.skip((n + 1) as int));
    }
}

proof fn lemma_text(quote: char, text: Seq<char>, s: Seq<char>)
    requires
        !text.contains(quote),
        !text.contains('\\'),
    ensures
        text_len(text + (seq![quote] + s), quote) == text.len(),
    decreases text.len(),
{
    let all = text + (seq![quote] + s);
    if text.len() > 0 {
        let rest = text.skip(1);
        assert(text.contains(text[0]));
        assert(all[0] == text[0]);
        assert(all.skip(1) =~= rest + (seq![quote] + s));
        assert forall|c: char| rest.contains(c) implies text.contains(c) by {
            let i = rest.index_of(c);
            assert(text[i + 1] == c);
        }
        lemma_text(quote, rest, s);
    } else {
        assert(all[0] == quote);
    }
}

/// Whether a token opens a bracket.
pub open spec fn opens(token: Token) -> bool {
    token == symbol('(') || token == symbol('[') || token == symbol('{')
}

/// Whether a token closes a bracket.
pub open spec fn closes(token: Token) -> bool {
    token == symbol(')') || token == symbol(']') || token == symbol('}')
}

/// The nesting before a place is the number of brackets opened less that of brackets closed.
pub proof fn nesting_counts_brackets(list: Seq<Token>, i: int)
    requires
        0 <= i <= list.len(),
    ensures
        nesting(list, i) == list.take(i).filter(|t: Token| opens(t)).len() - list.take(i).filter(
            |t: Token| closes(t),
        ).len(),
    decreases i,
{
    reveal(Seq::filter);
    if i > 0 {
        nesting_counts_brackets(list, i - 1);
        let now = list.take(i);
        assert(now.drop_last() =~= list.take(i - 1));
        assert(now.last() == list[i - 1]);
    } else {
        assert(list.take(0).len() == 0);
    }
}

/// The bracket that a place is in is the last one opened before it and not closed in between: the
/// last place with less nesting before it. There is none where no place has less.
pub proof fn brackets_are_the_innermost(list: Seq<Token>, i: int)
    requires
        0 <= i <= list.len(),
    ensures
        ({
            let open = opener(list, i, 0);
            &&& -1 <= open < i || (i == 0 && open == -1)
            &&& open >= 0 ==> opens(list[open]) && nesting(list, open) == nesting(list, i) - 1
            &&& forall|j: int| open < j <= i ==> #[trigger] nesting(list, j) >= nesting(list, i)
        }),
{
    lemma_opener(list, i, 0);
}

proof fn lemma_opener(list: Seq<Token>, i: int, closed: nat)
    requires
        0 <= i <= list.len(),
    ensures
        ({
            let open = opener(list, i, closed);
            &&& -1 <= open < i || (i == 0 && open == -1)
            &&& open >= 0 ==> opens(list[open]) && nesting(list, open) == nesting(list, i) - closed
                - 1
            &&& forall|j: int|
                open < j <= i ==> #[trigger] nesting(list, j) >= nesting(list, i) - closed
        }),
    decreases i,
{
    if i > 0 {
        let token = list[i - 1];
        let open = opener(list, i, closed);
        assert(at(list, i - 1) == token);
        if closes(token) {
            lemma_opener(list, i - 1, closed + 1);
            assert(open == opener(list, i - 1, closed + 1));
        } else if opens(token) {
            if closed > 0 {
                lemma_opener(list, i - 1, (closed - 1) as nat);
                assert(open == opener(list, i - 1, (closed - 1) as nat));
            }
        } else {
            lemma_opener(list, i - 1, closed);
            assert(open == opener(list, i - 1, closed));
        }
        assert forall|j: int| open < j <= i implies #[trigger] nesting(list, j) >= nesting(list, i)
            - closed by {
            if j < i {
                assert(nesting(list, j) >= nesting(list, i) - closed);
            }
        }
    }
}

/// Whether a name is that of a function or a filter that is admitted in some uses only.
pub open spec fn needs_care(name: Seq<char>) -> bool {
    ||| name == "range"@
    ||| name == "indent"@
    ||| name == "batch"@
    ||| name == "slice"@
    ||| name == "map"@
    ||| name == "select"@
    ||| name == "reject"@
    ||| name == "selectattr"@
    ||| name == "rejectattr"@
    ||| name == "sort"@
    ||| name == "divisibleby"@
    ||| name == "format"@
    ||| name == "chain"@
}

/// An expression that is not too long and not nested too deep is admitted where it holds no name
/// that needs care, no colon, no star and no closing brace.
pub proof fn ordinary_expressions_are_admitted(expr: Seq<char>)
    requires
        tokens(expr).len() <= MAX_TOKENS,
        forall|i: int|
            0 <= i <= tokens(expr).len() ==> #[trigger] nesting(tokens(expr), i) <= MAX_NESTING,
        forall|i: int|
            0 <= i < tokens(expr).len() ==> match #[trigger] tokens(expr)[i] {
                Token::Name(name) => !needs_care(name),
                Token::Symbol(c) => c != ':' as int && c != '*' as int && c != '}' as int,
                _ => true,
            },
    ensures
        admitted(expr),
{
    let list = tokens(expr);
    assert forall|i: int| 0 <= i < list.len() implies #[trigger] token_admitted(list, i) by {
        assert(at(list, i) == list[i]);
    }
}

/// Whether a token is a number of four digits at most.
pub open spec fn is_short(token: Token) -> bool {
    token is Number && 1 <= token->Number_0.len() <= 4 && forall|k: int|
        0 <= k < token->Number_0.len() ==> '0' <= (#[trigger] token->Number_0[k]) <= '9'
}

/// Whether a name is that of a filter that is admitted without arguments, or with plain ones.
pub open spec fn is_filter(name: Seq<char>) -> bool {
    ||| name == "indent"@
    ||| name == "batch"@
    ||| name == "slice"@
    ||| name == "map"@
    ||| name == "select"@
    ||| name == "reject"@
    ||| name == "selectattr"@
    ||| name == "rejectattr"@
}

/// Whether a call with short numbers and names alone, and commas between them, begins at a place.
pub open spec fn simple_call(list: Seq<Token>, i: int, end: int) -> bool {
    &&& 0 <= i < end < list.len()
    &&& list[i] == symbol('(')
    &&& list[end] == symbol(')')
    &&& forall|j: int|
        i < j < end ==> is_short(#[trigger] list[j]) || list[j] is Name || list[j] == symbol(',')
}

/// Whether the token at a place is used in one of the ordinary ways: names that need care as filters
/// without arguments, or called with short numbers and names; a divisor that is a short number
/// other than zero; colons that are the first of their bracket; products of two short numbers; and
/// braces that are open.
pub open spec fn ordinary_use(list: Seq<Token>, i: int) -> bool {
    match list[i] {
        Token::Name(name) => {
            ||| !needs_care(name)
            ||| (is_filter(name) || name == "sort"@) && at(list, i + 1) != symbol('(')
            ||| (is_filter(name) || name == "range"@) && exists|end: int| #[trigger]
                simple_call(list, i + 1, end)
            ||| name == "divisibleby"@ && is_short(at(list, i + 1)) && at(
                list,
                i + 1,
            )->Number_0[0] != '0'
        },
        Token::Symbol(c) => {
            ||| c != ':' as int && c != '*' as int && c != '}' as int
            ||| c == ':' as int && forall|j: int|
                0 <= j < i && #[trigger] list[j] == symbol(':') ==> opener(list, j, 0) != opener(
                    list,
                    i,
                    0,
                )
            ||| c == '*' as int && 0 < i < list.len() - 1 && is_short(list[i - 1]) && is_short(
                list[i + 1],
            ) && (i == 1 || (list[i - 2] != symbol('*') && list[i - 2] != symbol('.'))) && (i + 2
                == list.len() || (list[i + 2] != symbol('*') && list[i + 2] != symbol('.') && list[i
                + 2] != symbol('|') && list[i + 2] != symbol('[') && list[i + 2] != symbol('(')))
            ||| c == '}' as int && nesting(list, i) > 0
        },
        _ => true,
    }
}

proof fn lemma_care_names()
    ensures
        !is_filter("sort"@) && !is_filter("range"@) && !is_filter("divisibleby"@),
        "sort"@ != "range"@ && "sort"@ != "divisibleby"@ && "range"@ != "divisibleby"@,
        !is_filter("format"@) && !is_filter("chain"@),
        "sort"@ != "format"@ && "sort"@ != "chain"@ && "range"@ != "format"@ && "range"@
            != "chain"@ && "divisibleby"@ != "format"@ && "divisibleby"@ != "chain"@,
{
    reveal_strlit("chain");
    reveal_strlit("range");
    reveal_strlit("indent");
    reveal_strlit("batch");
    reveal_strlit("slice");
    reveal_strlit("map");
    reveal_strlit("select");
    reveal_strlit("reject");
    reveal_strlit("selectattr");
    reveal_strlit("rejectattr");
    reveal_strlit("sort");
    reveal_strlit("divisibleby");
    reveal_strlit("format");
    assert("chain"@.len() == 5 && "range"@.len() == 5 && "indent"@.len() == 6 && "batch"@.len() == 5
        && "slice"@.len() == 5 && "map"@.len() == 3 && "select"@.len() == 6 && "reject"@.len() == 6
        && "selectattr"@.len() == 10 && "rejectattr"@.len() == 10 && "sort"@.len() == 4
        && "divisibleby"@.len() == 11 && "format"@.len() == 6);
    assert("chain"@[0] == 'c' && "range"@[0] == 'r' && "batch"@[0] == 'b' && "slice"@[0] == 's');
    assert("format"@[0] == 'f' && "indent"@[0] == 'i' && "select"@[0] == 's' && "reject"@[0]
        == 'r');
}

/// An expression that is not too long and not nested too deep is admitted where every token of it
/// is used in an ordinary way.
pub proof fn ordinary_uses_are_admitted(expr: Seq<char>)
    requires
        tokens(expr).len() <= MAX_TOKENS,
        forall|i: int|
            0 <= i <= tokens(expr).len() ==> #[trigger] nesting(tokens(expr), i) <= MAX_NESTING,
        forall|i: int| 0 <= i < tokens(expr).len() ==> #[trigger] ordinary_use(tokens(expr), i),
    ensures
        admitted(expr),
{
    let list = tokens(expr);
    lemma_care_names();
    assert forall|i: int| 0 <= i < list.len() implies #[trigger] token_admitted(list, i) by {
        assert(ordinary_use(list, i));
        assert(at(list, i) == list[i]);
        match list[i] {
            Token::Name(name) => {
                if needs_care(name) {
                    if exists|end: int| #[trigger] simple_call(list, i + 1, end) {
                        let end = choose|end: int| #[trigger] simple_call(list, i + 1, end);
                        lemma_simple_call(list, i + 1, end);
                    }
                    if name == "divisibleby"@ {
                        assert(small_number(at(list, i + 1)));
                    }
                }
            },
            Token::Symbol(c) => {
                if c == ':' as int {
                    lemma_first_colon(list, i);
                } else if c == '*' as int {
                    assert(at(list, i - 1) == list[i - 1]);
                    assert(at(list, i + 1) == list[i + 1]);
                    assert(small_number(list[i - 1]));
                    assert(small_number(list[i + 1]));
                    assert(literal_product(list, i));
                }
            },
            _ => {},
        }
    }
}

proof fn lemma_simple_call(list: Seq<Token>, i: int, end: int)
    requires
        simple_call(list, i, end),
    ensures
        plain_call(list, i),
{
    assert forall|j: int| i < j < end implies plain_argument(#[trigger] list[j]) && !goes_on(
        list,
        j,
    ) by {
        assert(is_short(list[j]) || list[j] is Name || list[j] == symbol(','));
        assert(at(list, j) == list[j]);
        if is_short(list[j]) {
            assert(small_number(list[j]));
        }
    }
    assert(list[end] == symbol(')'));
}

proof fn lemma_first_colon(list: Seq<Token>, i: int)
    requires
        0 <= i < list.len(),
        list[i] == symbol(':'),
        ordinary_use(list, i),
    ensures
        token_admitted(list, i),
{
    assert(at(list, i) == list[i]);
    brackets_are_the_innermost(list, i);
    if before_step(list, i) {
        let open = opener(list, i, 0);
        let j = choose|j: int|
            open < j < i && #[trigger] list[j] == symbol(':') && opener(list, j, 0) == open;
        assert(list[j] == symbol(':'));
    }
}

/// An expression is refused that is too long or nested too deep, that names `chain`, or that closes
/// a brace that is not open.
pub proof fn harmful_expressions_are_refused(expr: Seq<char>, i: int)
    requires
        0 <= i <= tokens(expr).len(),
    ensures
        tokens(expr).len() > MAX_TOKENS ==> !admitted(expr),
        nesting(tokens(expr), i) > MAX_NESTING ==> !admitted(expr),
        i < tokens(expr).len() && tokens(expr)[i] == Token::Name("chain"@) ==> !admitted(expr),
        i < tokens(expr).len() && tokens(expr)[i] == symbol('}') && nesting(tokens(expr), i) <= 0
            ==> !admitted(expr),
{
    let list = tokens(expr);
    if i < list.len() {
        assert(at(list, i) == list[i]);
        if list[i] == Token::Name("chain"@) {
            reveal_strlit("chain");
            reveal_strlit("range");
            reveal_strlit("indent");
            reveal_strlit("batch");
            reveal_strlit("slice");
            reveal_strlit("map");
            reveal_strlit("select");
            reveal_strlit("reject");
            reveal_strlit("selectattr");
            reveal_strlit("rejectattr");
            reveal_strlit("sort");
            reveal_strlit("divisibleby");
            reveal_strlit("format");
            assert("chain"@[0] == 'c' && "chain"@.len() == 5);
            assert("range"@[0] == 'r' && "batch"@[0] == 'b' && "slice"@[0] == 's');
            assert("indent"@.len() != 5 && "map"@.len() != 5 && "select"@.len() != 5
                && "reject"@.len() != 5 && "selectattr"@.len() != 5 && "rejectattr"@.len() != 5
                && "sort"@.len() != 5 && "divisibleby"@.len() != 5 && "format"@.len() != 5);
            assert(!token_admitted(list, i));
        }
        if list[i] == symbol('}') && nesting(list, i) <= 0 {
            assert(!token_admitted(list, i));
        }
    }
}

} // verus!
