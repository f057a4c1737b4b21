//! Splitting the text of a mapping into tokens.
use vstd::prelude::*;

verus! {

pub const TAB: u8 = 9;
pub const NEWLINE: u8 = 10;
pub const RETURN: u8 = 13;
pub const SPACE: u8 = 32;
pub const BANG: u8 = 33;
pub const DQUOTE: u8 = 34;
pub const HASH: u8 = 35;
pub const PERCENT: u8 = 37;
pub const AMP: u8 = 38;
pub const SQUOTE: u8 = 39;
pub const LPAREN: u8 = 40;
pub const RPAREN: u8 = 41;
pub const STAR: u8 = 42;
pub const PLUS: u8 = 43;
pub const COMMA: u8 = 44;
pub const MINUS: u8 = 45;
pub const DOT: u8 = 46;
pub const SLASH: u8 = 47;
pub const DIGIT_0: u8 = 48;
pub const DIGIT_9: u8 = 57;
pub const COLON: u8 = 58;
pub const SEMI: u8 = 59;
pub const LESS: u8 = 60;
pub const EQUALS: u8 = 61;
pub const GREATER: u8 = 62;
pub const QUESTION: u8 = 63;
pub const AT: u8 = 64;
pub const UPPER_A: u8 = 65;
pub const UPPER_X: u8 = 88;
pub const UPPER_Z: u8 = 90;
pub const LBRACKET: u8 = 91;
pub const BACKSLASH: u8 = 92;
pub const RBRACKET: u8 = 93;
pub const CARET: u8 = 94;
pub const UNDERSCORE: u8 = 95;
pub const LOWER_A: u8 = 97;
pub const LOWER_E: u8 = 101;
pub const LOWER_F: u8 = 102;
pub const LOWER_I: u8 = 105;
pub const LOWER_L: u8 = 108;
pub const LOWER_R: u8 = 114;
pub const LOWER_S: u8 = 115;
pub const LOWER_T: u8 = 116;
pub const LOWER_U: u8 = 117;
pub const LOWER_X: u8 = 120;
pub const LOWER_Z: u8 = 122;
pub const LBRACE: u8 = 123;
pub const BAR: u8 = 124;
pub const RBRACE: u8 = 125;
pub const TILDE: u8 = 126;

/// What a token is.
#[derive(Clone, Copy, Debug, PartialEq, Eq, Structural)]
pub enum TokenKind {
    /// A name or keyword (`Some`, `num`, `u8`).
    Ident,
    /// A number, string, character or boolean literal.
    Literal,
    /// A lifetime such as `'static`.
    Lifetime,
    /// Punctuation; `<=>` and `::` are single tokens.
    Punct,
}

/// One token with its exact text.
#[derive(Debug)]
pub struct Token {
    pub kind: TokenKind,
    pub text: Vec<u8>,
}

pub open spec fn is_alpha(b: u8) -> bool {
    (LOWER_A <= b && b <= LOWER_Z) || (UPPER_A <= b && b <= UPPER_Z)
}

pub open spec fn is_digit(b: u8) -> bool {
    DIGIT_0 <= b && b <= DIGIT_9
}

pub open spec fn is_ident_start(b: u8) -> bool {
    is_alpha(b) || b == UNDERSCORE
}

pub open spec fn is_ident_continue(b: u8) -> bool {
    is_ident_start(b) || is_digit(b)
}

pub open spec fn is_space(b: u8) -> bool {
    b == SPACE || b == TAB || b == NEWLINE || b == RETURN
}

pub open spec fn is_punct(b: u8) -> bool {
    b == LPAREN || b == RPAREN || b == LBRACKET || b == RBRACKET || b == LBRACE || b == RBRACE
        || b == LESS || b == GREATER || b == COMMA || b == COLON || b == SEMI || b == AMP
        || b == STAR || b == PLUS || b == MINUS || b == EQUALS || b == BANG || b == BAR
        || b == DOT || b == HASH || b == AT || b == QUESTION || b == SLASH || b == PERCENT
        || b == CARET || b == TILDE
}

/// A token is well formed when its text is not empty and fits its kind.
pub open spec fn wf_token(t: Token) -> bool {
    let s = t.text@;
    &&& s.len() > 0
    &&& t.kind == TokenKind::Ident ==> is_ident_start(s[0]) && forall|k: int|
        0 <= k < s.len() ==> is_ident_continue(#[trigger] s[k])
    &&& t.kind == TokenKind::Lifetime ==> s[0] == SQUOTE && s.len() >= 2
    &&& t.kind == TokenKind::Literal ==> is_digit(s[0]) || s[0] == DQUOTE || s[0] == SQUOTE
        || is_ident_start(s[0])
    &&& t.kind == TokenKind::Punct ==> is_punct(s[0])
}

pub open spec fn all_wf(ts: Seq<Token>) -> bool {
    forall|k: int| 0 <= k < ts.len() ==> wf_token(#[trigger] ts[k])
}

fn ident_start(b: u8) -> (r: bool)
    ensures
        r == is_ident_start(b),
{
    (LOWER_A <= b && b <= LOWER_Z) || (UPPER_A <= b && b <= UPPER_Z) || b == UNDERSCORE
}

fn ident_continue(b: u8) -> (r: bool)
    ensures
        r == is_ident_continue(b),
{
    ident_start(b) || (DIGIT_0 <= b && b <= DIGIT_9)
}

fn punct(b: u8) -> (r: bool)
    ensures
        r == is_punct(b),
{
    b == LPAREN || b == RPAREN || b == LBRACKET || b == RBRACKET || b == LBRACE || b == RBRACE
        || b == LESS || b == GREATER || b == COMMA || b == COLON || b == SEMI || b == AMP
        || b == STAR || b == PLUS || b == MINUS || b == EQUALS || b == BANG || b == BAR
        || b == DOT || b == HASH || b == AT || b == QUESTION || b == SLASH || b == PERCENT
        || b == CARET || b == TILDE
}

/// Copies `input[lo..hi]`.
pub fn slice_bytes(input: &[u8], lo: usize, hi: usize) -> (r: Vec<u8>)
    requires
        lo <= hi <= input@.len(),
    ensures
        r@ == input@.subrange(lo as int, hi as int),
{
    let mut out: Vec<u8> = Vec::new();
    let mut i = lo;
    while i < hi
        invariant
            lo <= i <= hi <= input@.len(),
            out@ == input@.subrange(lo as int, i as int),
        decreases hi - i,
    {
        out.push(input[i]);
        i = i + 1;
        assert(out@ =~= input@.subrange(lo as int, i as int));
    }
    out
}

/// A token as the specifications see it: its kind and text.
pub type TokenV = (TokenKind, Seq<u8>);

pub open spec fn tviews(ts: Seq<Token>) -> Seq<TokenV> {
    Seq::new(ts.len(), |i: int| (ts[i].kind, ts[i].text@))
}

/// The first position from `i` on that holds no identifier byte.
pub open spec fn ident_end_at(s: Seq<u8>, i: int) -> int
    decreases s.len() - i,
{
    if i < 0 || i >= s.len() || !is_ident_continue(s[i]) {
        i
    } else {
        ident_end_at(s, i + 1)
    }
}

/// Where a number literal that has reached `j` ends: identifier bytes, and a `.` that a digit
/// follows, continue it.
pub open spec fn number_end_at(s: Seq<u8>, j: int) -> int
    decreases s.len() - j,
{
    if j < 0 || j >= s.len() {
        j
    } else if is_ident_continue(s[j]) {
        number_end_at(s, j + 1)
    } else if s[j] == DOT && j + 1 < s.len() && is_digit(s[j + 1]) {
        number_end_at(s, j + 2)
    } else {
        j
    }
}

/// Where a string literal that has reached `j` ends (after its closing quote); `None` when it
/// is not closed. A backslash escapes the byte after it.
pub open spec fn string_end_at(s: Seq<u8>, j: int) -> Option<int>
    decreases s.len() - j,
{
    if j < 0 || j >= s.len() {
        None
    } else if s[j] == DQUOTE {
        Some(j + 1)
    } else if s[j] == BACKSLASH {
        if j + 1 >= s.len() {
            None
        } else {
            string_end_at(s, j + 2)
        }
    } else {
        string_end_at(s, j + 1)
    }
}

pub open spec fn is_bool_word(w: Seq<u8>) -> bool {
    w == seq![LOWER_T, LOWER_R, LOWER_U, LOWER_E]
        || w == seq![LOWER_F, LOWER_A, LOWER_L, LOWER_S, LOWER_E]
}

/// How many bytes the punctuation token at `i` takes: 3 for `<=>`, 2 for `::`, else 1.
pub open spec fn punct_len(s: Seq<u8>, i: int) -> int {
    if s[i] == LESS && i + 2 < s.len() && s[i + 1] == EQUALS && s[i + 2] == GREATER {
        3
    } else if s[i] == COLON && i + 1 < s.len() && s[i + 1] == COLON {
        2
    } else {
        1
    }
}

pub open spec fn prepend(t: TokenV, r: Result<Seq<TokenV>, usize>) -> Result<Seq<TokenV>, usize> {
    match r {
        Ok(ts) => Ok(seq![t] + ts),
        Err(p) => Err(p),
    }
}

/// The tokens of `s[i..]`, or the offset of the first byte that starts no token.
pub open spec fn lex_from(s: Seq<u8>, i: int) -> Result<Seq<TokenV>, usize>
    decreases s.len() - i,
{
    if i < 0 || i >= s.len() {
        Ok(Seq::empty())
    } else {
        let b = s[i];
        if is_space(b) {
            lex_from(s, i + 1)
        } else if is_ident_start(b) {
            let j = ident_end_at(s, i);
            if j <= i || j > s.len() {
                Err(i as usize)
            } else {
                let w = s.subrange(i, j);
                let kind = if is_bool_word(w) {
                    TokenKind::Literal
                } else {
                    TokenKind::Ident
                };
                prepend((kind, w), lex_from(s, j))
            }
        } else if is_digit(b) {
            let j = number_end_at(s, i + 1);
            if j <= i || j > s.len() {
                Err(i as usize)
            } else {
                prepend((TokenKind::Literal, s.subrange(i, j)), lex_from(s, j))
            }
        } else if b == DQUOTE {
            match string_end_at(s, i + 1) {
                Some(j) => if j <= i || j > s.len() {
                    Err(i as usize)
                } else {
                    prepend((TokenKind::Literal, s.subrange(i, j)), lex_from(s, j))
                },
                None => Err(i as usize),
            }
        } else if b == SQUOTE {
            if i + 1 < s.len() && is_ident_start(s[i + 1]) && !(i + 2 < s.len() && s[i + 2]
                == SQUOTE) {
                let j = ident_end_at(s, i + 1);
                if j <= i || j > s.len() {
                    Err(i as usize)
                } else {
                    prepend((TokenKind::Lifetime, s.subrange(i, j)), lex_from(s, j))
                }
            } else if i + 2 < s.len() && s[i + 1] != BACKSLASH && s[i + 2] == SQUOTE {
                prepend((TokenKind::Literal, s.subrange(i, i + 3)), lex_from(s, i + 3))
            } else if i + 3 < s.len() && s[i + 1] == BACKSLASH && s[i + 3] == SQUOTE {
                prepend((TokenKind::Literal, s.subrange(i, i + 4)), lex_from(s, i + 4))
            } else {
                Err(i as usize)
            }
        } else if is_punct(b) {
            let len = punct_len(s, i);
            prepend((TokenKind::Punct, s.subrange(i, i + len)), lex_from(s, i + len))
        } else {
            Err(i as usize)
        }
    }
}

/// The tokens of `s`: whitespace between tokens is skipped; a token is taken as long as it
/// goes (an identifier, keyword or lifetime with all its identifier bytes, a number with its
/// suffix, a string up to its closing quote); `<=>` and `::` are one token each.
pub open spec fn lex(s: Seq<u8>) -> Result<Seq<TokenV>, usize> {
    lex_from(s, 0)
}

/// End of the run of identifier bytes that starts at `i`.
fn ident_end(input: &[u8], i: usize) -> (j: usize)
    requires
        i <= input@.len(),
    ensures
        i <= j <= input@.len(),
        j == ident_end_at(input@, i as int),
        i < input@.len() && is_ident_continue(input@[i as int]) ==> j > i,
        forall|k: int| i <= k < j ==> is_ident_continue(#[trigger] input@[k]),
{
    let mut j = i;
    while j < input.len() && ident_continue(input[j])
        invariant
            i <= j <= input@.len(),
            ident_end_at(input@, j as int) == ident_end_at(input@, i as int),
            forall|k: int| i <= k < j ==> is_ident_continue(#[trigger] input@[k]),
        decreases input@.len() - j,
    {
        j = j + 1;
    }
    j
}

/// End of a number literal whose first digit is at `i`.
fn number_end(input: &[u8], i: usize) -> (j: usize)
    requires
        i < input@.len(),
    ensures
        i < j <= input@.len(),
        j == number_end_at(input@, i + 1),
{
    let n = input.len();
    let mut j = i + 1;
    while j < n
        invariant
            n == input@.len(),
            i < j <= n,
            number_end_at(input@, j as int) == number_end_at(input@, i + 1),
        decreases n - j,
    {
        let b = input[j];
        if ident_continue(b) {
            j = j + 1;
        } else if b == DOT && j + 1 < n && DIGIT_0 <= input[j + 1] && input[j + 1] <= DIGIT_9 {
            j = j + 2;
        } else {
            return j;
        }
    }
    j
}

/// End of the string literal whose opening quote is at `i`, or `None` when it is not closed.
fn string_end(input: &[u8], i: usize) -> (r: Option<usize>)
    requires
        i < input@.len(),
    ensures
        r matches Some(j) ==> i + 2 <= j <= input@.len() && string_end_at(input@, i + 1) == Some(
            j as int,
        ),
        r is None ==> string_end_at(input@, i + 1) is None,
{
    let n = input.len();
    let mut j = i + 1;
    while j < n
        invariant
            n == input@.len(),
            i < j <= n,
            string_end_at(input@, j as int) == string_end_at(input@, i + 1),
        decreases n - j,
    {
        let b = input[j];
        if b == DQUOTE {
            return Some(j + 1);
        } else if b == BACKSLASH {
            if j + 1 >= n {
                return None;
            }
            j = j + 2;
        } else {
            j = j + 1;
        }
    }
    None
}

/// Whether a word is `true` or `false`.
fn bool_word(w: &Vec<u8>) -> (r: bool)
    ensures
        r == is_bool_word(w@),
{
    let t = w.len() == 4 && w[0] == LOWER_T && w[1] == LOWER_R && w[2] == LOWER_U && w[3]
        == LOWER_E;
    let f = w.len() == 5 && w[0] == LOWER_F && w[1] == LOWER_A && w[2] == LOWER_L && w[3]
        == LOWER_S && w[4] == LOWER_E;
    assert(t ==> w@ =~= seq![LOWER_T, LOWER_R, LOWER_U, LOWER_E]);
    assert(f ==> w@ =~= seq![LOWER_F, LOWER_A, LOWER_L, LOWER_S, LOWER_E]);
    assert(w@ == seq![LOWER_T, LOWER_R, LOWER_U, LOWER_E] ==> t);
    assert(w@ == seq![LOWER_F, LOWER_A, LOWER_L, LOWER_S, LOWER_E] ==> f);
    t || f
}

/// `prefix` followed by the outcome `r` of lexing the rest.
pub open spec fn after(prefix: Seq<TokenV>, r: Result<Seq<TokenV>, usize>) -> Result<
    Seq<TokenV>,
    usize,
> {
    match r {
        Ok(ts) => Ok(prefix + ts),
        Err(p) => Err(p),
    }
}

proof fn lemma_after_prepend(prefix: Seq<TokenV>, t: TokenV, r: Result<Seq<TokenV>, usize>)
    ensures
        after(prefix, prepend(t, r)) == after(prefix.push(t), r),
{
    if let Ok(ts) = r {
        assert(prefix + (seq![t] + ts) =~= prefix.push(t) + ts);
    }
}

/// Pushes the token `input[i..j]` of kind `kind`.
fn push_token(out: &mut Vec<Token>, kind: TokenKind, input: &[u8], i: usize, j: usize)
    requires
        i < j <= input@.len(),
    ensures
        tviews(final(out)@) == tviews(old(out)@).push((kind, input@.subrange(i as int, j as int))),
        final(out)@.len() == old(out)@.len() + 1,
        forall|k: int| 0 <= k < old(out)@.len() ==> final(out)@[k] == old(out)@[k],
        final(out)@.last().kind == kind,
        final(out)@.last().text@ == input@.subrange(i as int, j as int),
{
    let text = slice_bytes(input, i, j);
    out.push(Token { kind, text });
    assert(tviews(out@) =~= tviews(old(out)@).push((kind, input@.subrange(i as int, j as int))));
}

proof fn lemma_push_keeps_wf(before: Seq<Token>, after: Seq<Token>)
    requires
        all_wf(before),
        after.len() == before.len() + 1,
        forall|k: int| 0 <= k < before.len() ==> after[k] == before[k],
        wf_token(after.last()),
    ensures
        all_wf(after),
{
    assert forall|k: int| 0 <= k < after.len() implies wf_token(#[trigger] after[k]) by {
        if k < before.len() {
            assert(after[k] == before[k]);
        }
    }
}

/// Splits `input` into tokens, skipping whitespace; on a byte that starts no token, or a
/// string or character literal that is not closed, gives the offset where it starts.
pub fn tokenize(input: &[u8]) -> (r: Result<Vec<Token>, usize>)
    ensures
        r matches Ok(ts) ==> all_wf(ts@) && lex(input@) == Ok::<Seq<TokenV>, usize>(tviews(ts@)),
        r matches Err(p) ==> p < input@.len() && lex(input@) == Err::<Seq<TokenV>, usize>(p),
{
    let ghost s = input@;
    let mut out: Vec<Token> = Vec::new();
    let n = input.len();
    let mut i: usize = 0;
    assert(tviews(out@) =~= Seq::<TokenV>::empty());
    assert(after(Seq::<TokenV>::empty(), lex_from(s, 0)) == lex_from(s, 0)) by {
        if let Ok(ts) = lex_from(s, 0) {
            assert(Seq::<TokenV>::empty() + ts =~= ts);
        }
    }
    while i < n
        invariant
            s == input@,
            n == input@.len(),
            i <= n,
            all_wf(out@),
            lex(s) == after(tviews(out@), lex_from(s, i as int)),
        decreases n - i,
    {
        let b = input[i];
        let ghost prefix = tviews(out@);
        let ghost old_out = out@;
        if b == SPACE || b == TAB || b == NEWLINE || b == RETURN {
            i = i + 1;
        } else if ident_start(b) {
            let j = ident_end(input, i);
            let text = slice_bytes(input, i, j);
            let kind = if bool_word(&text) {
                TokenKind::Literal
            } else {
                TokenKind::Ident
            };
            push_token(&mut out, kind, input, i, j);
            proof {
                lemma_after_prepend(
                    prefix,
                    (kind, s.subrange(i as int, j as int)),
                    lex_from(s, j as int),
                );
                let last = out@.last();
                assert forall|k: int| 0 <= k < last.text@.len() implies is_ident_continue(
                    #[trigger] last.text@[k],
                ) by {
                    assert(last.text@[k] == input@[i + k]);
                }
                assert(wf_token(last));
                lemma_push_keeps_wf(old_out, out@);
            }
            i = j;
        } else if DIGIT_0 <= b && b <= DIGIT_9 {
            let j = number_end(input, i);
            push_token(&mut out, TokenKind::Literal, input, i, j);
            proof {
                lemma_after_prepend(
                    prefix,
                    (TokenKind::Literal, s.subrange(i as int, j as int)),
                    lex_from(s, j as int),
                );
                lemma_push_keeps_wf(old_out, out@);
            }
            i = j;
        } else if b == DQUOTE {
            match string_end(input, i) {
                Some(j) => {
                    push_token(&mut out, TokenKind::Literal, input, i, j);
                    proof {
                        lemma_after_prepend(
                            prefix,
                            (TokenKind::Literal, s.subrange(i as int, j as int)),
                            lex_from(s, j as int),
                        );
                        lemma_push_keeps_wf(old_out, out@);
                    }
                    i = j;
                },
                None => {
                    return Err(i);
                },
            }
        } else if b == SQUOTE {
            if i + 1 < n && ident_start(input[i + 1]) && !(n - i > 2 && input[i + 2] == SQUOTE) {
                let j = ident_end(input, i + 1);
                push_token(&mut out, TokenKind::Lifetime, input, i, j);
                proof {
                    lemma_after_prepend(
                        prefix,
                        (TokenKind::Lifetime, s.subrange(i as int, j as int)),
                        lex_from(s, j as int),
                    );
                    lemma_push_keeps_wf(old_out, out@);
                }
                i = j;
            } else if n - i > 2 && input[i + 1] != BACKSLASH && input[i + 2] == SQUOTE {
                push_token(&mut out, TokenKind::Literal, input, i, i + 3);
                proof {
                    lemma_after_prepend(
                        prefix,
                        (TokenKind::Literal, s.subrange(i as int, i + 3)),
                        lex_from(s, i + 3),
                    );
                    lemma_push_keeps_wf(old_out, out@);
                }
                i = i + 3;
            } else if n - i > 3 && input[i + 1] == BACKSLASH && input[i + 3] == SQUOTE {
                push_token(&mut out, TokenKind::Literal, input, i, i + 4);
                proof {
                    lemma_after_prepend(
                        prefix,
                        (TokenKind::Literal, s.subrange(i as int, i + 4)),
                        lex_from(s, i + 4),
                    );
                    lemma_push_keeps_wf(old_out, out@);
                }
                i = i + 4;
            } else {
                return Err(i);
            }
        } else if punct(b) {
            let len: usize = if b == LESS && n - i > 2 && input[i + 1] == EQUALS && input[i + 2]
                == GREATER {
                3
            } else if b == COLON && i + 1 < n && input[i + 1] == COLON {
                2
            } else {
                1
            };
            assert(len == punct_len(s, i as int));
            push_token(&mut out, TokenKind::Punct, input, i, i + len);
            proof {
                lemma_after_prepend(
                    prefix,
                    (TokenKind::Punct, s.subrange(i as int, i + len)),
                    lex_from(s, i + len),
                );
                lemma_push_keeps_wf(old_out, out@);
            }
            i = i + len;
        } else {
            return Err(i);
        }
    }
    assert(tviews(out@) + Seq::<TokenV>::empty() =~= tviews(out@));
    Ok(out)
}

} // verus!
