use vstd::prelude::*;
use vstd::string::StringExecFns;

use crate::token::{Token, TokenView, offset_of, token_views};
use crate::ErrorKind;

verus! {

// ---------------------------------------------------------------------------
// Character classes
// ---------------------------------------------------------------------------

/// An ASCII decimal digit, the only characters that may open a number.
pub open spec fn is_digit(c: char) -> bool {
    ('0' as u32) <= (c as u32) && (c as u32) <= ('9' as u32)
}

/// An ASCII letter, the only characters that may open an identifier.
pub open spec fn is_letter(c: char) -> bool {
    (('a' as u32) <= (c as u32) && (c as u32) <= ('z' as u32)) || (('A' as u32) <= (c as u32)
        && (c as u32) <= ('Z' as u32))
}

/// A character that continues a number run: a digit or an underscore
/// separator.
pub open spec fn is_num_cont(c: char) -> bool {
    is_digit(c) || c == '_'
}

/// A character that continues an identifier run.
pub open spec fn is_word_char(c: char) -> bool {
    is_letter(c) || is_digit(c) || c == '_'
}

/// A character that is a complete token by itself, with no longer form.
pub open spec fn is_single(c: char) -> bool {
    c == '(' || c == ')' || c == '{' || c == '}' || c == '[' || c == ']' || c == ';' || c == '#'
        || c == '%' || c == '*' || c == ':'
}

/// A character that may open a two-character operator and so asks for one
/// character of lookahead.
pub open spec fn is_multi_start(c: char) -> bool {
    c == '+' || c == '-' || c == '/' || c == '=' || c == '<' || c == '!' || c == '>'
}

/// The token a lone single-class character denotes.
pub open spec fn single_token(c: char, off: int) -> TokenView {
    if c == '(' {
        TokenView::LParen { offset: off }
    } else if c == ')' {
        TokenView::RParen { offset: off }
    } else if c == '{' {
        TokenView::LCurl { offset: off }
    } else if c == '}' {
        TokenView::RCurl { offset: off }
    } else if c == '[' {
        TokenView::LBrac { offset: off }
    } else if c == ']' {
        TokenView::RBrac { offset: off }
    } else if c == ';' {
        TokenView::SemiColon { offset: off }
    } else if c == '#' {
        TokenView::Hash { offset: off }
    } else if c == '%' {
        TokenView::Modulo { offset: off }
    } else if c == '*' {
        TokenView::Star { offset: off }
    } else {
        TokenView::Colon { offset: off }
    }
}

/// The token emitted when a multi-start character is not completed by its
/// lookahead.
pub open spec fn lone_token(c: char, off: int) -> TokenView {
    if c == '+' {
        TokenView::Plus { offset: off }
    } else if c == '-' {
        TokenView::Minus { offset: off }
    } else if c == '/' {
        TokenView::Slash { offset: off }
    } else if c == '=' {
        TokenView::Equal { offset: off }
    } else if c == '<' {
        TokenView::Less { offset: off }
    } else if c == '!' {
        TokenView::Bang { offset: off }
    } else {
        TokenView::More { offset: off }
    }
}

/// The combined token a multi-start character and its lookahead denote, if
/// the pair is one of the recognized two-character operators.
pub open spec fn pair_token(c: char, d: char, off: int) -> Option<TokenView> {
    if c == '+' && d == '=' {
        Some(TokenView::PlusEqual { offset: off })
    } else if c == '+' && d == '+' {
        Some(TokenView::PlusPlus { offset: off })
    } else if c == '-' && d == '=' {
        Some(TokenView::MinusEqual { offset: off })
    } else if c == '-' && d == '-' {
        Some(TokenView::MinusMinus { offset: off })
    } else if c == '-' && d == '>' {
        Some(TokenView::Arrow { offset: off })
    } else if c == '/' && d == '/' {
        Some(TokenView::SlashSlash { offset: off })
    } else if c == '=' && d == '=' {
        Some(TokenView::EqualEqual { offset: off })
    } else if c == '<' && d == '=' {
        Some(TokenView::LessEqual { offset: off })
    } else if c == '!' && d == '=' {
        Some(TokenView::BangEqual { offset: off })
    } else if c == '>' && d == '=' {
        Some(TokenView::MoreEqual { offset: off })
    } else if c == '>' && d == '>' {
        Some(TokenView::DoubleArrow { offset: off })
    } else {
        None
    }
}

/// The token an accumulated word denotes: one of the five reserved words, or
/// an identifier carrying the word itself.
pub open spec fn word_token(w: Seq<char>, off: int) -> TokenView {
    if w == "return"@ {
        TokenView::Return { offset: off }
    } else if w == "func"@ {
        TokenView::Func { offset: off }
    } else if w == "if"@ {
        TokenView::If { offset: off }
    } else if w == "else"@ {
        TokenView::Else { offset: off }
    } else if w == "elif"@ {
        TokenView::Elif { offset: off }
    } else {
        TokenView::Ident { offset: off, value: w }
    }
}

/// A number's payload: the run's characters with every underscore removed.
pub open spec fn strip_underscores(s: Seq<char>) -> Seq<char> {
    s.filter(|c: char| c != '_')
}

// ---------------------------------------------------------------------------
// Run boundaries
// ---------------------------------------------------------------------------

/// The index of the first character at or after `i` that does not continue a
/// number run, or the input's length if the run reaches the end.
pub open spec fn num_run_end(s: Seq<char>, i: int) -> int
    recommends
        0 <= i <= s.len(),
    decreases s.len() - i,
    when 0 <= i <= s.len()
{
    if i >= s.len() {
        i
    } else if is_num_cont(s[i]) {
        num_run_end(s, i + 1)
    } else {
        i
    }
}

/// The index of the first character at or after `i` that does not continue an
/// identifier run, or the input's length if the run reaches the end.
pub open spec fn word_run_end(s: Seq<char>, i: int) -> int
    recommends
        0 <= i <= s.len(),
    decreases s.len() - i,
    when 0 <= i <= s.len()
{
    if i >= s.len() {
        i
    } else if is_word_char(s[i]) {
        word_run_end(s, i + 1)
    } else {
        i
    }
}

/// The index of the first quote character at or after `i`, or the input's
/// length if none follows.
pub open spec fn quote_end(s: Seq<char>, i: int) -> int
    recommends
        0 <= i <= s.len(),
    decreases s.len() - i,
    when 0 <= i <= s.len()
{
    if i >= s.len() {
        i
    } else if s[i] == '"' {
        i
    } else {
        quote_end(s, i + 1)
    }
}

pub proof fn lemma_num_run_end(s: Seq<char>, i: int)
    requires
        0 <= i <= s.len(),
    ensures
        i <= num_run_end(s, i) <= s.len(),
        forall|k: int| i <= k < num_run_end(s, i) ==> is_num_cont(#[trigger] s[k]),
        num_run_end(s, i) < s.len() ==> !is_num_cont(s[num_run_end(s, i)]),
    decreases s.len() - i,
{
    if i < s.len() && is_num_cont(s[i]) {
        lemma_num_run_end(s, i + 1);
    }
}

pub proof fn lemma_word_run_end(s: Seq<char>, i: int)
    requires
        0 <= i <= s.len(),
    ensures
        i <= word_run_end(s, i) <= s.len(),
        forall|k: int| i <= k < word_run_end(s, i) ==> is_word_char(#[trigger] s[k]),
        word_run_end(s, i) < s.len() ==> !is_word_char(s[word_run_end(s, i)]),
    decreases s.len() - i,
{
    if i < s.len() && is_word_char(s[i]) {
        lemma_word_run_end(s, i + 1);
    }
}

pub proof fn lemma_quote_end(s: Seq<char>, i: int)
    requires
        0 <= i <= s.len(),
    ensures
        i <= quote_end(s, i) <= s.len(),
        forall|k: int| i <= k < quote_end(s, i) ==> #[trigger] s[k] != '"',
        quote_end(s, i) < s.len() ==> s[quote_end(s, i)] == '"',
    decreases s.len() - i,
{
    if i < s.len() && s[i] != '"' {
        lemma_quote_end(s, i + 1);
    }
}

// ---------------------------------------------------------------------------
// The scanner's specification
// ---------------------------------------------------------------------------

/// Prepends one token to a lexing outcome; an aborted scan stays aborted.
pub open spec fn opt_cons(t: TokenView, rest: Option<Seq<TokenView>>) -> Option<Seq<TokenView>> {
    match rest {
        Some(ts) => Some(seq![t] + ts),
        None => None,
    }
}

/// Prepends already emitted tokens to a lexing outcome; an aborted scan stays
/// aborted.
pub open spec fn opt_cat(done: Seq<TokenView>, rest: Option<Seq<TokenView>>) -> Option<
    Seq<TokenView>,
> {
    match rest {
        Some(ts) => Some(done + ts),
        None => None,
    }
}

/// The tokens emitted from position `i` on, not counting the end-of-input
/// marker; `None` when an unterminated string literal aborts the scan.
pub open spec fn lex_from(s: Seq<char>, i: int) -> Option<Seq<TokenView>>
    recommends
        0 <= i <= s.len(),
    decreases s.len() - i,
    when 0 <= i <= s.len()
{
    if i >= s.len() {
        Some(Seq::empty())
    } else {
        let c = s[i];
        if is_single(c) {
            opt_cons(single_token(c, i), lex_from(s, i + 1))
        } else if is_multi_start(c) {
            if i + 1 >= s.len() {
                Some(seq![lone_token(c, i)])
            } else {
                match pair_token(c, s[i + 1], i) {
                    Some(t) => opt_cons(t, lex_from(s, i + 2)),
                    None => opt_cons(lone_token(c, i), lex_from(s, i + 1)),
                }
            }
        } else if is_digit(c) {
            let j = num_run_end(s, i + 1);
            proof {
                lemma_num_run_end(s, i + 1);
            }
            opt_cons(
                TokenView::Numeric { offset: i, value: strip_underscores(s.subrange(i, j)) },
                lex_from(s, j),
            )
        } else if c == '"' {
            let k = quote_end(s, i + 1);
            proof {
                lemma_quote_end(s, i + 1);
            }
            if k >= s.len() {
                None
            } else {
                opt_cons(
                    TokenView::String { offset: i, value: s.subrange(i + 1, k) },
                    lex_from(s, k + 1),
                )
            }
        } else if is_letter(c) {
            let j = word_run_end(s, i + 1);
            proof {
                lemma_word_run_end(s, i + 1);
            }
            opt_cons(word_token(s.subrange(i, j), i), lex_from(s, j))
        } else {
            lex_from(s, i + 1)
        }
    }
}

/// The whole scan of a non-empty input: the emitted tokens followed by the
/// end-of-input marker at the final cursor position, or `None` when the scan
/// aborts on an unterminated string literal.
pub open spec fn lex(s: Seq<char>) -> Option<Seq<TokenView>>
    recommends
        s.len() > 0,
{
    match lex_from(s, 0) {
        Some(ts) => Some(ts.push(TokenView::Eof { offset: s.len() - 1 })),
        None => None,
    }
}

// ---------------------------------------------------------------------------
// Laws of the scanning specification
// ---------------------------------------------------------------------------

/// Every token's offset lies in `[lo, hi)`, and offsets never decrease along
/// the sequence.
pub open spec fn offsets_bounded_sorted(ts: Seq<TokenView>, lo: int, hi: int) -> bool {
    &&& forall|k: int| 0 <= k < ts.len() ==> lo <= offset_of(#[trigger] ts[k]) < hi
    &&& forall|k: int, l: int|
        0 <= k <= l < ts.len() ==> offset_of(#[trigger] ts[k]) <= offset_of(#[trigger] ts[l])
}

proof fn lemma_cons_sorted(t: TokenView, ts: Seq<TokenView>, lo: int, n: int, hi: int)
    requires
        offset_of(t) == lo,
        lo <= n,
        lo < hi,
        offsets_bounded_sorted(ts, n, hi),
    ensures
        offsets_bounded_sorted(seq![t] + ts, lo, hi),
{
    let r = seq![t] + ts;
    assert forall|k: int| 0 <= k < r.len() implies lo <= offset_of(#[trigger] r[k]) < hi by {
        if k > 0 {
            assert(r[k] == ts[k - 1]);
        }
    }
    assert forall|k: int, l: int| 0 <= k <= l < r.len() implies offset_of(#[trigger] r[k])
        <= offset_of(#[trigger] r[l]) by {
        if k > 0 {
            assert(r[k] == ts[k - 1]);
        }
        if l > 0 {
            assert(r[l] == ts[l - 1]);
        }
    }
}

/// Every token emitted from position `i` on carries an offset at or after
/// `i` and before the input's end, in non-decreasing order.
pub proof fn lemma_lex_from_offsets(s: Seq<char>, i: int)
    requires
        0 <= i <= s.len(),
        lex_from(s, i) is Some,
    ensures
        offsets_bounded_sorted(lex_from(s, i)->Some_0, i, s.len() as int),
    decreases s.len() - i,
{
    let ts = lex_from(s, i)->Some_0;
    if i >= s.len() {
        // nothing emitted
    } else {
        let c = s[i];
        if is_single(c) {
            lemma_lex_from_offsets(s, i + 1);
            lemma_cons_sorted(single_token(c, i), lex_from(s, i + 1)->Some_0, i, i + 1, s.len() as int);
        } else if is_multi_start(c) {
            if i + 1 >= s.len() {
                assert(ts =~= seq![lone_token(c, i)] + Seq::<TokenView>::empty());
                lemma_cons_sorted(lone_token(c, i), Seq::empty(), i, i + 1, s.len() as int);
            } else {
                match pair_token(c, s[i + 1], i) {
                    Some(t) => {
                        lemma_lex_from_offsets(s, i + 2);
                        lemma_cons_sorted(t, lex_from(s, i + 2)->Some_0, i, i + 2, s.len() as int);
                    },
                    None => {
                        lemma_lex_from_offsets(s, i + 1);
                        lemma_cons_sorted(
                            lone_token(c, i),
                            lex_from(s, i + 1)->Some_0,
                            i,
                            i + 1,
                            s.len() as int,
                        );
                    },
                }
            }
        } else if is_digit(c) {
            let j = num_run_end(s, i + 1);
            lemma_num_run_end(s, i + 1);
            lemma_lex_from_offsets(s, j);
            lemma_cons_sorted(
                TokenView::Numeric { offset: i, value: strip_underscores(s.subrange(i, j)) },
                lex_from(s, j)->Some_0,
                i,
                j,
                s.len() as int,
            );
        } else if c == '"' {
            let k = quote_end(s, i + 1);
            lemma_quote_end(s, i + 1);
            lemma_lex_from_offsets(s, k + 1);
            lemma_cons_sorted(
                TokenView::String { offset: i, value: s.subrange(i + 1, k) },
                lex_from(s, k + 1)->Some_0,
                i,
                k + 1,
                s.len() as int,
            );
        } else if is_letter(c) {
            let j = word_run_end(s, i + 1);
            lemma_word_run_end(s, i + 1);
            lemma_lex_from_offsets(s, j);
            lemma_cons_sorted(
                word_token(s.subrange(i, j), i),
                lex_from(s, j)->Some_0,
                i,
                j,
                s.len() as int,
            );
        } else {
            lemma_lex_from_offsets(s, i + 1);
        }
    }
}

/// Law: for every input the scan accepts, the emitted offsets are
/// non-decreasing, and the end-of-input marker stands exactly once: last.
pub proof fn lemma_offsets_nondecreasing_eof_last(s: Seq<char>)
    requires
        s.len() > 0,
        lex(s) is Some,
    ensures
        ({
            let ts = lex(s)->Some_0;
            &&& ts.len() > 0
            &&& ts.last() is Eof
            &&& forall|k: int| 0 <= k < ts.len() - 1 ==> !(#[trigger] ts[k] is Eof)
            &&& forall|k: int, l: int|
                0 <= k <= l < ts.len() ==> offset_of(#[trigger] ts[k]) <= offset_of(
                    #[trigger] ts[l],
                )
        }),
{
    let body = lex_from(s, 0)->Some_0;
    let ts = lex(s)->Some_0;
    lemma_lex_from_offsets(s, 0);
    lemma_lex_from_no_eof(s, 0);
    assert(ts.last() == TokenView::Eof { offset: s.len() - 1 });
    assert forall|k: int, l: int| 0 <= k <= l < ts.len() implies offset_of(#[trigger] ts[k])
        <= offset_of(#[trigger] ts[l]) by {
        if l < ts.len() - 1 {
            assert(ts[k] == body[k] && ts[l] == body[l]);
        } else if k < ts.len() - 1 {
            assert(ts[k] == body[k]);
            assert(offset_of(ts[k]) < s.len());
        }
    }
}

/// The end-of-input marker is never emitted by the dispatch rules
/// themselves; only the scan's final step appends it.
pub proof fn lemma_lex_from_no_eof(s: Seq<char>, i: int)
    requires
        0 <= i <= s.len(),
        lex_from(s, i) is Some,
    ensures
        forall|k: int|
            0 <= k < lex_from(s, i)->Some_0.len() ==> !(#[trigger] lex_from(s, i)->Some_0[k]
                is Eof),
    decreases s.len() - i,
{
    let ts = lex_from(s, i)->Some_0;
    if i < s.len() {
        let c = s[i];
        if is_single(c) {
            lemma_lex_from_no_eof(s, i + 1);
            assert forall|k: int| 0 <= k < ts.len() implies !(#[trigger] ts[k] is Eof) by {
                if k > 0 {
                    assert(ts[k] == lex_from(s, i + 1)->Some_0[k - 1]);
                }
            }
        } else if is_multi_start(c) {
            if i + 1 >= s.len() {
            } else {
                match pair_token(c, s[i + 1], i) {
                    Some(t) => {
                        lemma_lex_from_no_eof(s, i + 2);
                        assert forall|k: int| 0 <= k < ts.len() implies !(#[trigger] ts[k]
                            is Eof) by {
                            if k > 0 {
                                assert(ts[k] == lex_from(s, i + 2)->Some_0[k - 1]);
                            }
                        }
                    },
                    None => {
                        lemma_lex_from_no_eof(s, i + 1);
                        assert forall|k: int| 0 <= k < ts.len() implies !(#[trigger] ts[k]
                            is Eof) by {
                            if k > 0 {
                                assert(ts[k] == lex_from(s, i + 1)->Some_0[k - 1]);
                            }
                        }
                    },
                }
            }
        } else if is_digit(c) {
            let j = num_run_end(s, i + 1);
            lemma_num_run_end(s, i + 1);
            lemma_lex_from_no_eof(s, j);
            assert forall|k: int| 0 <= k < ts.len() implies !(#[trigger] ts[k] is Eof) by {
                if k > 0 {
                    assert(ts[k] == lex_from(s, j)->Some_0[k - 1]);
                }
            }
        } else if c == '"' {
            let k2 = quote_end(s, i + 1);
            lemma_quote_end(s, i + 1);
            lemma_lex_from_no_eof(s, k2 + 1);
            assert forall|k: int| 0 <= k < ts.len() implies !(#[trigger] ts[k] is Eof) by {
                if k > 0 {
                    assert(ts[k] == lex_from(s, k2 + 1)->Some_0[k - 1]);
                }
            }
        } else if is_letter(c) {
            let j = word_run_end(s, i + 1);
            lemma_word_run_end(s, i + 1);
            lemma_lex_from_no_eof(s, j);
            assert forall|k: int| 0 <= k < ts.len() implies !(#[trigger] ts[k] is Eof) by {
                if k > 0 {
                    assert(ts[k] == lex_from(s, j)->Some_0[k - 1]);
                }
            }
        } else {
            lemma_lex_from_no_eof(s, i + 1);
        }
    }
}

/// Law: an input that is one digit-and-underscore run is scanned to a single
/// number token whose payload is the digits with every underscore removed.
pub proof fn lemma_number_run(s: Seq<char>)
    requires
        s.len() > 0,
        is_digit(s[0]),
        forall|k: int| 1 <= k < s.len() ==> is_num_cont(#[trigger] s[k]),
    ensures
        lex(s) == Some(
            seq![
                TokenView::Numeric { offset: 0, value: strip_underscores(s) },
                TokenView::Eof { offset: s.len() - 1 },
            ],
        ),
{
    lemma_num_run_end(s, 1);
    let j = num_run_end(s, 1);
    if j < s.len() {
        assert(is_num_cont(s[j]));
    }
    assert(j == s.len());
    assert(s.subrange(0, s.len() as int) =~= s);
    let t = TokenView::Numeric { offset: 0, value: strip_underscores(s) };
    assert(lex_from(s, 0) == opt_cons(t, lex_from(s, j)));
    assert(seq![t] + Seq::<TokenView>::empty() =~= seq![t]);
}

/// Law: a well-formed quoted span is scanned to exactly one string token
/// whose payload is the text between the quotes.
pub proof fn lemma_quoted_span(body: Seq<char>)
    requires
        forall|k: int| 0 <= k < body.len() ==> #[trigger] body[k] != '"',
    ensures
        lex(seq!['"'] + body + seq!['"']) == Some(
            seq![
                TokenView::String { offset: 0, value: body },
                TokenView::Eof { offset: body.len() as int + 1 },
            ],
        ),
{
    let s = seq!['"'] + body + seq!['"'];
    lemma_quote_end(s, 1);
    let k = quote_end(s, 1);
    assert(s[body.len() as int + 1] == '"');
    assert(forall|m: int| 1 <= m < body.len() + 1 ==> #[trigger] s[m] == body[m - 1]);
    if k < body.len() + 1 {
        assert(s[k] == '"');
        assert(s[k] == body[k - 1]);
    }
    assert(k == body.len() + 1);
    assert(s.subrange(1, k) =~= body);
    let t = TokenView::String { offset: 0, value: body };
    assert(lex_from(s, 0) == opt_cons(t, lex_from(s, k + 1)));
    assert(lex_from(s, k + 1) == Some(Seq::<TokenView>::empty()));
    assert(seq![t] + Seq::<TokenView>::empty() =~= seq![t]);
}

/// Law: a quoted span that never closes aborts the whole scan.
pub proof fn lemma_unterminated_literal(body: Seq<char>)
    requires
        forall|k: int| 0 <= k < body.len() ==> #[trigger] body[k] != '"',
    ensures
        lex(seq!['"'] + body) is None,
{
    let s = seq!['"'] + body;
    lemma_quote_end(s, 1);
    let k = quote_end(s, 1);
    if k < s.len() {
        assert(s[k] == '"');
        assert(s[k] == body[k - 1]);
    }
    assert(lex_from(s, 0) is None);
}

/// Law: the exact two-character string of each recognized operator pair is
/// scanned to the one combined token, never to two single-character tokens.
pub proof fn lemma_pair_operator(c: char, d: char)
    requires
        pair_token(c, d, 0) is Some,
    ensures
        lex(seq![c, d]) == Some(
            seq![pair_token(c, d, 0)->Some_0, TokenView::Eof { offset: 1 }],
        ),
{
    let s = seq![c, d];
    let t = pair_token(c, d, 0)->Some_0;
    assert(lex_from(s, 0) == opt_cons(t, lex_from(s, 2)));
    assert(lex_from(s, 2) == Some(Seq::<TokenView>::empty()));
    assert(seq![t] + Seq::<TokenView>::empty() =~= seq![t]);
}

/// Law: a word immediately followed by a single-character delimiter is
/// scanned to the word's token immediately followed by the delimiter's
/// token: the lookahead character that ended the word is never lost.
pub proof fn lemma_word_then_delimiter(w: Seq<char>, c: char)
    requires
        w.len() > 0,
        is_letter(w[0]),
        forall|k: int| 1 <= k < w.len() ==> is_word_char(#[trigger] w[k]),
        is_single(c),
    ensures
        lex(w.push(c)) == Some(
            seq![
                word_token(w, 0),
                single_token(c, w.len() as int),
                TokenView::Eof { offset: w.len() as int },
            ],
        ),
{
    let s = w.push(c);
    lemma_word_run_end(s, 1);
    let j = word_run_end(s, 1);
    assert(forall|m: int| 1 <= m < w.len() ==> #[trigger] s[m] == w[m]);
    assert(!is_word_char(c));
    if j < w.len() {
        assert(!is_word_char(s[j]));
        assert(s[j] == w[j]);
        assert(false);
    }
    if j > w.len() {
        assert(is_word_char(s[w.len() as int]));
        assert(false);
    }
    assert(j == w.len());
    assert(s.subrange(0, j) =~= w);
    let t0 = word_token(w, 0);
    let t1 = single_token(c, w.len() as int);
    assert(lex_from(s, 0) == opt_cons(t0, lex_from(s, j)));
    assert(lex_from(s, j) == opt_cons(t1, lex_from(s, j + 1)));
    assert(lex_from(s, j + 1) == Some(Seq::<TokenView>::empty()));
    assert(seq![t1] + Seq::<TokenView>::empty() =~= seq![t1]);
    assert(seq![t0] + seq![t1] =~= seq![t0, t1]);
}

/// Law: a whole-input word is scanned to its reserved-word token when it
/// exactly matches one of the five reserved words, and otherwise to an
/// identifier token carrying that exact text.
pub proof fn lemma_word_tokens(s: Seq<char>)
    requires
        s.len() > 0,
        is_letter(s[0]),
        forall|k: int| 1 <= k < s.len() ==> is_word_char(#[trigger] s[k]),
    ensures
        lex(s) == Some(seq![word_token(s, 0), TokenView::Eof { offset: s.len() - 1 }]),
{
    lemma_word_run_end(s, 1);
    let j = word_run_end(s, 1);
    if j < s.len() {
        assert(is_word_char(s[j]));
    }
    assert(j == s.len());
    assert(s.subrange(0, s.len() as int) =~= s);
    let t = word_token(s, 0);
    assert(lex_from(s, 0) == opt_cons(t, lex_from(s, j)));
    assert(seq![t] + Seq::<TokenView>::empty() =~= seq![t]);
}

proof fn lemma_token_views_push(ts: Seq<Token>, t: Token)
    ensures
        token_views(ts.push(t)) == token_views(ts).push(t@),
{
    assert(token_views(ts.push(t)) =~= token_views(ts).push(t@));
}

proof fn lemma_opt_step(p: Seq<TokenView>, t: TokenView, rest: Option<Seq<TokenView>>)
    ensures
        opt_cat(p.push(t), rest) == opt_cat(p, opt_cons(t, rest)),
{
    match rest {
        Some(ts) => {
            assert(p.push(t) + ts =~= p + (seq![t] + ts));
        },
        None => {},
    }
}

proof fn lemma_strip_push(s: Seq<char>, c: char)
    ensures
        strip_underscores(s.push(c)) == if c != '_' {
            strip_underscores(s).push(c)
        } else {
            strip_underscores(s)
        },
{
    reveal(Seq::filter);
    assert(s.push(c).drop_last() =~= s);
}

proof fn lemma_strip_empty()
    ensures
        strip_underscores(Seq::<char>::empty()) == Seq::<char>::empty(),
{
    reveal(Seq::filter);
}

// ---------------------------------------------------------------------------
// The scanner
// ---------------------------------------------------------------------------

/// Relies on std's String::push: it appends exactly the given character to
/// the end of the string.
#[verifier::external_body]
fn push_char(buf: &mut String, c: char)
    ensures
        final(buf)@ == old(buf)@.push(c),
{
    buf.push(c);
}

fn ch_is_digit(c: char) -> (b: bool)
    ensures
        b == is_digit(c),
{
    let u = c as u32;
    ('0' as u32) <= u && u <= ('9' as u32)
}

fn ch_is_letter(c: char) -> (b: bool)
    ensures
        b == is_letter(c),
{
    let u = c as u32;
    (('a' as u32) <= u && u <= ('z' as u32)) || (('A' as u32) <= u && u <= ('Z' as u32))
}

fn ch_is_num_cont(c: char) -> (b: bool)
    ensures
        b == is_num_cont(c),
{
    ch_is_digit(c) || c == '_'
}

fn ch_is_word_char(c: char) -> (b: bool)
    ensures
        b == is_word_char(c),
{
    ch_is_letter(c) || ch_is_digit(c) || c == '_'
}

fn ch_is_single(c: char) -> (b: bool)
    ensures
        b == is_single(c),
{
    c == '(' || c == ')' || c == '{' || c == '}' || c == '[' || c == ']' || c == ';' || c == '#'
        || c == '%' || c == '*' || c == ':'
}

fn ch_is_multi_start(c: char) -> (b: bool)
    ensures
        b == is_multi_start(c),
{
    c == '+' || c == '-' || c == '/' || c == '=' || c == '<' || c == '!' || c == '>'
}

fn single_token_exec(c: char, offset: usize) -> (t: Token)
    requires
        is_single(c),
    ensures
        t@ == single_token(c, offset as int),
{
    if c == '(' {
        Token::LParen { offset }
    } else if c == ')' {
        Token::RParen { offset }
    } else if c == '{' {
        Token::LCurl { offset }
    } else if c == '}' {
        Token::RCurl { offset }
    } else if c == '[' {
        Token::LBrac { offset }
    } else if c == ']' {
        Token::RBrac { offset }
    } else if c == ';' {
        Token::SemiColon { offset }
    } else if c == '#' {
        Token::Hash { offset }
    } else if c == '%' {
        Token::Modulo { offset }
    } else if c == '*' {
        Token::Star { offset }
    } else {
        Token::Colon { offset }
    }
}

fn lone_token_exec(c: char, offset: usize) -> (t: Token)
    requires
        is_multi_start(c),
    ensures
        t@ == lone_token(c, offset as int),
{
    if c == '+' {
        Token::Plus { offset }
    } else if c == '-' {
        Token::Minus { offset }
    } else if c == '/' {
        Token::Slash { offset }
    } else if c == '=' {
        Token::Equal { offset }
    } else if c == '<' {
        Token::Less { offset }
    } else if c == '!' {
        Token::Bang { offset }
    } else {
        Token::More { offset }
    }
}

fn pair_token_exec(c: char, d: char, offset: usize) -> (t: Option<Token>)
    ensures
        match t {
            Some(tok) => pair_token(c, d, offset as int) == Some(tok@),
            None => pair_token(c, d, offset as int) is None,
        },
{
    if c == '+' && d == '=' {
        Some(Token::PlusEqual { offset })
    } else if c == '+' && d == '+' {
        Some(Token::PlusPlus { offset })
    } else if c == '-' && d == '=' {
        Some(Token::MinusEqual { offset })
    } else if c == '-' && d == '-' {
        Some(Token::MinusMinus { offset })
    } else if c == '-' && d == '>' {
        Some(Token::Arrow { offset })
    } else if c == '/' && d == '/' {
        Some(Token::SlashSlash { offset })
    } else if c == '=' && d == '=' {
        Some(Token::EqualEqual { offset })
    } else if c == '<' && d == '=' {
        Some(Token::LessEqual { offset })
    } else if c == '!' && d == '=' {
        Some(Token::BangEqual { offset })
    } else if c == '>' && d == '=' {
        Some(Token::MoreEqual { offset })
    } else if c == '>' && d == '>' {
        Some(Token::DoubleArrow { offset })
    } else {
        None
    }
}

/// Matches the accumulated word against the fixed reserved-word set; any
/// other word becomes an identifier carrying that exact text.
fn word_token_exec(offset: usize, w: String) -> (t: Token)
    ensures
        t@ == word_token(w@, offset as int),
{
    if w == String::from_str("return") {
        Token::Return { offset }
    } else if w == String::from_str("func") {
        Token::Func { offset }
    } else if w == String::from_str("if") {
        Token::If { offset }
    } else if w == String::from_str("else") {
        Token::Else { offset }
    } else if w == String::from_str("elif") {
        Token::Elif { offset }
    } else {
        Token::Ident { offset, value: w }
    }
}

/// Takes a stream of characters and builds the tokenized output.
pub struct Lexer {
    pub stream: Vec<char>,
    pub output: Vec<Token>,
    pub cursor: usize,
}

impl Lexer {
    /// The cursor always rests on a character of the stream.
    pub open spec fn wf(&self) -> bool {
        self.cursor < self.stream@.len()
    }

    /// A scanner as construction leaves it: cursor on the first character,
    /// nothing emitted yet.
    pub open spec fn fresh(&self) -> bool {
        self.wf() && self.cursor == 0 && self.output@.len() == 0
    }

    /// Creates a new scanner resting on the first character; an empty stream
    /// yields no scanner, signaling the trivially empty input.
    pub fn new(stream: Vec<char>) -> (r: Option<Lexer>)
        ensures
            (stream@.len() == 0) <==> (r is None),
            r matches Some(l) ==> l.stream@ == stream@ && l.fresh(),
    {
        if stream.len() == 0 {
            None
        } else {
            Some(Lexer { stream, output: Vec::new(), cursor: 0 })
        }
    }

    /// Advances to the next character; at the end of the stream the cursor
    /// stays put and `None` says so.
    fn next(&mut self) -> (r: Option<char>)
        requires
            old(self).wf(),
        ensures
            final(self).stream@ == old(self).stream@,
            final(self).output@ == old(self).output@,
            final(self).wf(),
            if old(self).cursor + 1 < old(self).stream@.len() {
                r == Some(old(self).stream@[old(self).cursor + 1])
                    && final(self).cursor == old(self).cursor + 1
            } else {
                r is None && final(self).cursor == old(self).cursor
            },
    {
        if self.cursor < self.stream.len() - 1 {
            self.cursor = self.cursor + 1;
            Some(self.stream[self.cursor])
        } else {
            None
        }
    }

    /// Advances and reports whether a character was left to advance to.
    fn check(&mut self) -> (b: bool)
        requires
            old(self).wf(),
        ensures
            final(self).stream@ == old(self).stream@,
            final(self).output@ == old(self).output@,
            final(self).wf(),
            b == (old(self).cursor + 1 < old(self).stream@.len()),
            b ==> final(self).cursor == old(self).cursor + 1,
            !b ==> final(self).cursor == old(self).cursor,
    {
        match self.next() {
            Some(_) => true,
            None => false,
        }
    }

    /// Appends one token to the output.
    fn push(&mut self, token: Token)
        ensures
            final(self).stream@ == old(self).stream@,
            final(self).cursor == old(self).cursor,
            final(self).output@ == old(self).output@.push(token),
    {
        self.output.push(token)
    }

    /// Accumulates the maximal run of digits and underscore separators that
    /// begins at the cursor, dropping the separators from the payload. The
    /// cursor is left on the character that ended the run, or on the last
    /// character if the run reached the end of the stream.
    #[verifier::loop_isolation(false)]
    fn take_number(&mut self) -> (r: String)
        requires
            old(self).wf(),
            is_digit(old(self).stream@[old(self).cursor as int]),
        ensures
            final(self).stream@ == old(self).stream@,
            final(self).output@ == old(self).output@,
            final(self).wf(),
            old(self).cursor <= final(self).cursor,
            ({
                let s = old(self).stream@;
                let i = old(self).cursor as int;
                let j = num_run_end(s, i + 1);
                &&& r@ == strip_underscores(s.subrange(i, j))
                &&& if j < s.len() {
                    final(self).cursor == j
                } else {
                    final(self).cursor + 1 == s.len()
                }
            }),
    {
        let ghost s = self.stream@;
        let ghost i = self.cursor as int;
        let ghost out0 = self.output@;
        let mut buffer = String::new();
        push_char(&mut buffer, self.stream[self.cursor]);
        proof {
            lemma_strip_empty();
            lemma_strip_push(Seq::<char>::empty(), s[i]);
            assert(s.subrange(i, i + 1) =~= Seq::<char>::empty().push(s[i]));
        }
        loop
            invariant
                self.wf(),
                self.stream@ == s,
                self.output@ == out0,
                i <= self.cursor < s.len(),
                is_digit(s[i]),
                buffer@ == strip_underscores(s.subrange(i, self.cursor + 1)),
                num_run_end(s, i + 1) == num_run_end(s, self.cursor + 1),
            decreases s.len() - self.cursor,
        {
            let ghost cur = self.cursor as int;
            match self.next() {
                Some(character) => {
                    proof {
                        assert(s.subrange(i, cur + 2) =~= s.subrange(i, cur + 1).push(
                            s[cur + 1],
                        ));
                        lemma_strip_push(s.subrange(i, cur + 1), s[cur + 1]);
                    }
                    if ch_is_digit(character) {
                        push_char(&mut buffer, character);
                    } else if character == '_' {
                        // a separator: consumed, never part of the payload
                    } else {
                        proof {
                            assert(s.subrange(i, cur + 1) =~= s.subrange(i, cur + 2).drop_last());
                        }
                        return buffer;
                    }
                },
                None => {
                    return buffer;
                },
            }
        }
    }

    /// Accumulates the maximal run of letters, digits and underscores that
    /// begins at the cursor. The cursor is left on the character that ended
    /// the run, or on the last character if the run reached the end.
    #[verifier::loop_isolation(false)]
    fn take_alphanum(&mut self) -> (r: String)
        requires
            old(self).wf(),
            is_letter(old(self).stream@[old(self).cursor as int]),
        ensures
            final(self).stream@ == old(self).stream@,
            final(self).output@ == old(self).output@,
            final(self).wf(),
            old(self).cursor <= final(self).cursor,
            ({
                let s = old(self).stream@;
                let i = old(self).cursor as int;
                let j = word_run_end(s, i + 1);
                &&& r@ == s.subrange(i, j)
                &&& if j < s.len() {
                    final(self).cursor == j
                } else {
                    final(self).cursor + 1 == s.len()
                }
            }),
    {
        let ghost s = self.stream@;
        let ghost i = self.cursor as int;
        let ghost out0 = self.output@;
        let mut buffer = String::new();
        push_char(&mut buffer, self.stream[self.cursor]);
        proof {
            assert(s.subrange(i, i + 1) =~= Seq::<char>::empty().push(s[i]));
        }
        loop
            invariant
                self.wf(),
                self.stream@ == s,
                self.output@ == out0,
                i <= self.cursor < s.len(),
                is_letter(s[i]),
                buffer@ == s.subrange(i, self.cursor + 1),
                word_run_end(s, i + 1) == word_run_end(s, self.cursor + 1),
            decreases s.len() - self.cursor,
        {
            let ghost cur = self.cursor as int;
            match self.next() {
                Some(character) => {
                    if ch_is_word_char(character) {
                        push_char(&mut buffer, character);
                        proof {
                            assert(s.subrange(i, cur + 2) =~= s.subrange(i, cur + 1).push(
                                s[cur + 1],
                            ));
                        }
                    } else {
                        return buffer;
                    }
                },
                None => {
                    return buffer;
                },
            }
        }
    }

    /// Accumulates every character after the opening quote up to and
    /// excluding the next quote. `Ok` carries the enclosed text and leaves
    /// the cursor on the closing quote; `Err` carries what was read when the
    /// stream ran out first.
    #[verifier::loop_isolation(false)]
    fn take_literal(&mut self) -> (r: Result<String, String>)
        requires
            old(self).wf(),
        ensures
            final(self).stream@ == old(self).stream@,
            final(self).output@ == old(self).output@,
            final(self).wf(),
            old(self).cursor <= final(self).cursor,
            ({
                let s = old(self).stream@;
                let i = old(self).cursor as int;
                let k = quote_end(s, i + 1);
                &&& k < s.len() ==> (r matches Ok(v) && v@ == s.subrange(i + 1, k)
                    && final(self).cursor == k)
                &&& k >= s.len() ==> (r matches Err(v) && v@ == s.subrange(i + 1, s.len() as int)
                    && final(self).cursor + 1 == s.len())
            }),
    {
        let ghost s = self.stream@;
        let ghost i = self.cursor as int;
        let ghost out0 = self.output@;
        let mut buffer = String::new();
        proof {
            assert(s.subrange(i + 1, i + 1) =~= Seq::<char>::empty());
        }
        loop
            invariant
                self.wf(),
                self.stream@ == s,
                self.output@ == out0,
                i <= self.cursor < s.len(),
                buffer@ == s.subrange(i + 1, self.cursor + 1),
                quote_end(s, i + 1) == quote_end(s, self.cursor + 1),
            decreases s.len() - self.cursor,
        {
            let ghost cur = self.cursor as int;
            match self.next() {
                Some(character) => {
                    if character == '"' {
                        return Ok(buffer);
                    } else {
                        push_char(&mut buffer, character);
                        proof {
                            assert(s.subrange(i + 1, cur + 2) =~= s.subrange(i + 1, cur + 1).push(
                                s[cur + 1],
                            ));
                        }
                    }
                },
                None => {
                    return Err(buffer);
                },
            }
        }
    }

    /// Dispatches the character under the cursor to its tokenizing rule and
    /// follows every re-dispatch the rule asks for, so that when it returns
    /// the next character to dispatch is the one after the cursor. `Err`
    /// reports the one fatal condition, an unterminated string literal.
    #[verifier::loop_isolation(false)]
    fn tokenize(&mut self) -> (r: Result<(), ErrorKind>)
        requires
            old(self).wf(),
        ensures
            final(self).stream@ == old(self).stream@,
            match r {
                Ok(_) => {
                    &&& final(self).wf()
                    &&& old(self).cursor <= final(self).cursor
                    &&& opt_cat(
                        token_views(final(self).output@),
                        lex_from(old(self).stream@, final(self).cursor + 1),
                    ) == opt_cat(
                        token_views(old(self).output@),
                        lex_from(old(self).stream@, old(self).cursor as int),
                    )
                },
                Err(e) => {
                    &&& e == ErrorKind::UnterminatedLiteral
                    &&& lex_from(old(self).stream@, old(self).cursor as int) is None
                },
            },
    {
        let ghost s = self.stream@;
        loop
            invariant
                self.wf(),
                self.stream@ == s,
                old(self).cursor <= self.cursor,
                opt_cat(token_views(self.output@), lex_from(s, self.cursor as int)) == opt_cat(
                    token_views(old(self).output@),
                    lex_from(s, old(self).cursor as int),
                ),
            decreases s.len() - self.cursor,
        {
            let ghost out_top = self.output@;
            let ghost i = self.cursor as int;
            let offset = self.cursor;
            let c = self.stream[self.cursor];
            if ch_is_single(c) {
                let t = single_token_exec(c, offset);
                self.push(t);
                proof {
                    lemma_token_views_push(out_top, t);
                    lemma_opt_step(token_views(out_top), t@, lex_from(s, i + 1));
                }
                return Ok(());
            } else if ch_is_multi_start(c) {
                match self.next() {
                    None => {
                        // the stream ends here: the lone form, and nothing to
                        // re-dispatch
                        let t = lone_token_exec(c, offset);
                        self.push(t);
                        proof {
                            lemma_token_views_push(out_top, t);
                            assert(lex_from(s, i) == Some(seq![lone_token(c, i)]));
                            assert(lex_from(s, i + 1) == Some(Seq::<TokenView>::empty()));
                            assert(token_views(out_top).push(t@) + Seq::<TokenView>::empty()
                                =~= token_views(out_top) + seq![lone_token(c, i)]);
                        }
                        return Ok(());
                    },
                    Some(d) => {
                        match pair_token_exec(c, d, offset) {
                            Some(t) => {
                                // the lookahead completes a two-character
                                // operator
                                self.push(t);
                                proof {
                                    lemma_token_views_push(out_top, t);
                                    lemma_opt_step(token_views(out_top), t@, lex_from(s, i + 2));
                                }
                                return Ok(());
                            },
                            None => {
                                // the lone form; the consumed lookahead is
                                // re-dispatched by the next round of the loop
                                let t = lone_token_exec(c, offset);
                                self.push(t);
                                proof {
                                    lemma_token_views_push(out_top, t);
                                    lemma_opt_step(token_views(out_top), t@, lex_from(s, i + 1));
                                }
                            },
                        }
                    },
                }
            } else if ch_is_digit(c) {
                let value = self.take_number();
                let ghost j = num_run_end(s, i + 1);
                proof {
                    lemma_num_run_end(s, i + 1);
                }
                let t = Token::Numeric { offset, value };
                self.push(t);
                proof {
                    lemma_token_views_push(out_top, t);
                    lemma_opt_step(token_views(out_top), t@, lex_from(s, j));
                }
                if ch_is_num_cont(self.stream[self.cursor]) {
                    // the run reached the end of the stream
                    proof {
                        assert(j == s.len());
                        assert(lex_from(s, self.cursor + 1) == Some(Seq::<TokenView>::empty()));
                    }
                    return Ok(());
                }
                // otherwise the cursor rests on the character that ended the
                // run; the next round of the loop dispatches it
            } else if c == '"' {
                match self.take_literal() {
                    Ok(value) => {
                        let ghost k = quote_end(s, i + 1);
                        proof {
                            lemma_quote_end(s, i + 1);
                        }
                        let t = Token::String { offset, value };
                        self.push(t);
                        proof {
                            lemma_token_views_push(out_top, t);
                            lemma_opt_step(token_views(out_top), t@, lex_from(s, k + 1));
                        }
                        return Ok(());
                    },
                    Err(_) => {
                        // no closing quote before the stream ran out: the
                        // whole scan aborts
                        proof {
                            lemma_quote_end(s, i + 1);
                            assert(lex_from(s, i) is None);
                        }
                        return Err(ErrorKind::UnterminatedLiteral);
                    },
                }
            } else if ch_is_letter(c) {
                let value = self.take_alphanum();
                let ghost j = word_run_end(s, i + 1);
                proof {
                    lemma_word_run_end(s, i + 1);
                }
                let t = word_token_exec(offset, value);
                self.push(t);
                proof {
                    lemma_token_views_push(out_top, t);
                    lemma_opt_step(token_views(out_top), t@, lex_from(s, j));
                }
                if ch_is_word_char(self.stream[self.cursor]) {
                    // the run reached the end of the stream
                    proof {
                        assert(j == s.len());
                        assert(lex_from(s, self.cursor + 1) == Some(Seq::<TokenView>::empty()));
                    }
                    return Ok(());
                }
                // otherwise the next round dispatches the run's terminator
            } else {
                // whitespace or an unrecognized character: no token, skip it
                return Ok(());
            }
        }
    }

    /// Scans the whole stream: dispatches each character to the tokenizing
    /// rule, then appends the end-of-input token at the final cursor
    /// position. The output is exactly what the scanning specification `lex`
    /// gives; an unterminated string literal aborts the scan instead.
    #[verifier::loop_isolation(false)]
    pub fn scan(&mut self) -> (r: Result<(), ErrorKind>)
        requires
            old(self).fresh(),
        ensures
            final(self).stream@ == old(self).stream@,
            match r {
                Ok(_) => lex(old(self).stream@) matches Some(ts) && token_views(
                    final(self).output@,
                ) == ts,
                Err(e) => e == ErrorKind::UnterminatedLiteral && lex(old(self).stream@) is None,
            },
    {
        let ghost s = self.stream@;
        proof {
            assert(token_views(self.output@) =~= Seq::<TokenView>::empty());
            match lex_from(s, 0) {
                Some(ts) => {
                    assert(Seq::<TokenView>::empty() + ts =~= ts);
                },
                None => {},
            }
        }
        let mut more = true;
        while more
            invariant
                self.wf(),
                self.stream@ == s,
                more ==> opt_cat(token_views(self.output@), lex_from(s, self.cursor as int))
                    == lex_from(s, 0),
                !more ==> self.cursor + 1 == s.len(),
                !more ==> opt_cat(token_views(self.output@), lex_from(s, self.cursor + 1))
                    == lex_from(s, 0),
            decreases s.len() - self.cursor, (if more { 1int } else { 0int }),
        {
            match self.tokenize() {
                Ok(_) => {},
                Err(e) => {
                    return Err(e);
                },
            }
            more = self.check();
        }
        let ghost out_pre = self.output@;
        proof {
            assert(lex_from(s, s.len() as int) == Some(Seq::<TokenView>::empty()));
            assert(token_views(out_pre) + Seq::<TokenView>::empty() =~= token_views(out_pre));
        }
        let offset = self.cursor;
        self.push(Token::Eof { offset });
        proof {
            lemma_token_views_push(out_pre, Token::Eof { offset });
        }
        Ok(())
    }
}

} // verus!

