//! The token alphabet of the intermediate representation and the lexer that
//! produces it, one source line at a time.
//!
//! Every tokenizer below is specified against a ghost mirror (`sp_*`) of its
//! behaviour over the line's character sequence: the `LexStep` value says
//! whether the tokenizer declines the input (consuming nothing), fails with a
//! `LexError`, or yields exactly one token together with the position of the
//! first character it did not consume.

use vstd::prelude::*;

verus! {

/// Where a token came from in the source text: zero-based row and column.
#[derive(Clone, Copy, Debug, PartialEq, Eq, Structural)]
pub struct TokLoc {
    pub row: u64,
    pub col: u64,
}

/// One lexical token. Each variant carries the location of its first
/// character (for two-character punctuation, of its second character).
#[derive(Debug, Clone, PartialEq)]
pub enum Token {
    I8Keyword(TokLoc),
    I16Keyword(TokLoc),
    I32Keyword(TokLoc),
    I64Keyword(TokLoc),
    F32Keyword(TokLoc),
    F64Keyword(TokLoc),
    VoidKeyword(TokLoc),
    FuncKeyword(TokLoc),
    AddKeyword(TokLoc),
    SubKeyword(TokLoc),
    LetKeyword(TokLoc),
    RetKeyword(TokLoc),
    CallKeyword(TokLoc),

    VarName(String, TokLoc),
    FuncName(String, TokLoc),

    Colon(TokLoc),
    LParen(TokLoc),
    RParen(TokLoc),
    LBrace(TokLoc),
    RBrace(TokLoc),
    Asterisk(TokLoc),

    Integer(i64, TokLoc),

    CharLit(String, TokLoc),
    Ident(String, TokLoc),
    StrLit(String, TokLoc),
    Ampersand(TokLoc),
    Bang(TokLoc),
    Comma(TokLoc),
    Dot(TokLoc),
    DotDot(TokLoc),
    DoubleAmpersand(TokLoc),
    DoubleColon(TokLoc),
    DoubleEquals(TokLoc),
    DoublePipe(TokLoc),
    Equals(TokLoc),
    LBracket(TokLoc),
    LWakka(TokLoc),
    Minus(TokLoc),
    Pipe(TokLoc),
    QuestionMark(TokLoc),
    RBracket(TokLoc),
    RFatArrow(TokLoc),
    RThinArrow(TokLoc),
    RWakka(TokLoc),
    Underscore(TokLoc),
    Pound(TokLoc),
}

/// A fatal lexing failure; the location names the character that exposed it.
#[derive(Debug, Clone, Copy, PartialEq, Eq, Structural)]
pub enum LexError {
    /// A `%` sigil with no name characters after it.
    ZeroLengthVarName(TokLoc),
    /// An `@` sigil with no name characters after it.
    ZeroLengthFuncName(TokLoc),
    /// A character literal that is empty or runs past three characters.
    BadCharLit(TokLoc),
    /// An integer literal that does not fit in an `i64`.
    IntegerOverflow(TokLoc),
}

/// The mathematical shadow of a `Token`: the same alternatives, with string
/// payloads as character sequences and without the source location.
pub ghost enum TokenAbs {
    I8Keyword,
    I16Keyword,
    I32Keyword,
    I64Keyword,
    F32Keyword,
    F64Keyword,
    VoidKeyword,
    FuncKeyword,
    AddKeyword,
    SubKeyword,
    LetKeyword,
    RetKeyword,
    CallKeyword,
    VarName(Seq<char>),
    FuncName(Seq<char>),
    Colon,
    LParen,
    RParen,
    LBrace,
    RBrace,
    Asterisk,
    Integer(i64),
    CharLit(Seq<char>),
    Ident(Seq<char>),
    StrLit(Seq<char>),
    Ampersand,
    Bang,
    Comma,
    Dot,
    DotDot,
    DoubleAmpersand,
    DoubleColon,
    DoubleEquals,
    DoublePipe,
    Equals,
    LBracket,
    LWakka,
    Minus,
    Pipe,
    QuestionMark,
    RBracket,
    RFatArrow,
    RThinArrow,
    RWakka,
    Underscore,
    Pound,
}

/// The shadow of a token: its alternative and payload, without the location.
pub open spec fn tok_abs(t: Token) -> TokenAbs {
    match t {
        Token::I8Keyword(_) => TokenAbs::I8Keyword,
        Token::I16Keyword(_) => TokenAbs::I16Keyword,
        Token::I32Keyword(_) => TokenAbs::I32Keyword,
        Token::I64Keyword(_) => TokenAbs::I64Keyword,
        Token::F32Keyword(_) => TokenAbs::F32Keyword,
        Token::F64Keyword(_) => TokenAbs::F64Keyword,
        Token::VoidKeyword(_) => TokenAbs::VoidKeyword,
        Token::FuncKeyword(_) => TokenAbs::FuncKeyword,
        Token::AddKeyword(_) => TokenAbs::AddKeyword,
        Token::SubKeyword(_) => TokenAbs::SubKeyword,
        Token::LetKeyword(_) => TokenAbs::LetKeyword,
        Token::RetKeyword(_) => TokenAbs::RetKeyword,
        Token::CallKeyword(_) => TokenAbs::CallKeyword,
        Token::VarName(s, _) => TokenAbs::VarName(s@),
        Token::FuncName(s, _) => TokenAbs::FuncName(s@),
        Token::Colon(_) => TokenAbs::Colon,
        Token::LParen(_) => TokenAbs::LParen,
        Token::RParen(_) => TokenAbs::RParen,
        Token::LBrace(_) => TokenAbs::LBrace,
        Token::RBrace(_) => TokenAbs::RBrace,
        Token::Asterisk(_) => TokenAbs::Asterisk,
        Token::Integer(i, _) => TokenAbs::Integer(i),
        Token::CharLit(s, _) => TokenAbs::CharLit(s@),
        Token::Ident(s, _) => TokenAbs::Ident(s@),
        Token::StrLit(s, _) => TokenAbs::StrLit(s@),
        Token::Ampersand(_) => TokenAbs::Ampersand,
        Token::Bang(_) => TokenAbs::Bang,
        Token::Comma(_) => TokenAbs::Comma,
        Token::Dot(_) => TokenAbs::Dot,
        Token::DotDot(_) => TokenAbs::DotDot,
        Token::DoubleAmpersand(_) => TokenAbs::DoubleAmpersand,
        Token::DoubleColon(_) => TokenAbs::DoubleColon,
        Token::DoubleEquals(_) => TokenAbs::DoubleEquals,
        Token::DoublePipe(_) => TokenAbs::DoublePipe,
        Token::Equals(_) => TokenAbs::Equals,
        Token::LBracket(_) => TokenAbs::LBracket,
        Token::LWakka(_) => TokenAbs::LWakka,
        Token::Minus(_) => TokenAbs::Minus,
        Token::Pipe(_) => TokenAbs::Pipe,
        Token::QuestionMark(_) => TokenAbs::QuestionMark,
        Token::RBracket(_) => TokenAbs::RBracket,
        Token::RFatArrow(_) => TokenAbs::RFatArrow,
        Token::RThinArrow(_) => TokenAbs::RThinArrow,
        Token::RWakka(_) => TokenAbs::RWakka,
        Token::Underscore(_) => TokenAbs::Underscore,
        Token::Pound(_) => TokenAbs::Pound,
    }
}

/// The location a token carries.
pub open spec fn tok_loc(t: Token) -> TokLoc {
    match t {
        Token::I8Keyword(l) => l,
        Token::I16Keyword(l) => l,
        Token::I32Keyword(l) => l,
        Token::I64Keyword(l) => l,
        Token::F32Keyword(l) => l,
        Token::F64Keyword(l) => l,
        Token::VoidKeyword(l) => l,
        Token::FuncKeyword(l) => l,
        Token::AddKeyword(l) => l,
        Token::SubKeyword(l) => l,
        Token::LetKeyword(l) => l,
        Token::RetKeyword(l) => l,
        Token::CallKeyword(l) => l,
        Token::VarName(_, l) => l,
        Token::FuncName(_, l) => l,
        Token::Colon(l) => l,
        Token::LParen(l) => l,
        Token::RParen(l) => l,
        Token::LBrace(l) => l,
        Token::RBrace(l) => l,
        Token::Asterisk(l) => l,
        Token::Integer(_, l) => l,
        Token::CharLit(_, l) => l,
        Token::Ident(_, l) => l,
        Token::StrLit(_, l) => l,
        Token::Ampersand(l) => l,
        Token::Bang(l) => l,
        Token::Comma(l) => l,
        Token::Dot(l) => l,
        Token::DotDot(l) => l,
        Token::DoubleAmpersand(l) => l,
        Token::DoubleColon(l) => l,
        Token::DoubleEquals(l) => l,
        Token::DoublePipe(l) => l,
        Token::Equals(l) => l,
        Token::LBracket(l) => l,
        Token::LWakka(l) => l,
        Token::Minus(l) => l,
        Token::Pipe(l) => l,
        Token::QuestionMark(l) => l,
        Token::RBracket(l) => l,
        Token::RFatArrow(l) => l,
        Token::RThinArrow(l) => l,
        Token::RWakka(l) => l,
        Token::Underscore(l) => l,
        Token::Pound(l) => l,
    }
}

/// What one tokenizer does at one position: decline, fail, or yield a token
/// (its shadow, its location, and the position after it).
pub ghost enum LexStep {
    Miss,
    Fail(LexError),
    Tok(TokenAbs, TokLoc, int),
}

/// The contract every tokenizer meets against its ghost mirror.
pub open spec fn step_matches(
    s: LexStep,
    r: Result<Option<Token>, LexError>,
    pos0: int,
    pos1: int,
) -> bool {
    match s {
        LexStep::Miss => r == Ok::<Option<Token>, LexError>(None) && pos1 == pos0,
        LexStep::Fail(e) => r == Err::<Option<Token>, LexError>(e),
        LexStep::Tok(a, loc, j) => {
            &&& r matches Ok(o)
            &&& o matches Some(t)
            &&& tok_abs(t) == a
            &&& tok_loc(t) == loc
            &&& pos1 == j
        },
    }
}

// ------------------------------------------------------------------
// Character classes
// ------------------------------------------------------------------

/// A decimal digit, `'0'` through `'9'`.
pub open spec fn is_digit_c(c: char) -> bool {
    48 <= c as u32 && c as u32 <= 57
}

/// What `char::is_alphabetic` holds of a character.
pub uninterp spec fn char_alphabetic(c: char) -> bool;

/// What `char::is_whitespace` holds of a character.
pub uninterp spec fn char_whitespace(c: char) -> bool;

/// Relies on char::is_alphabetic: the result depends on the character alone.
#[verifier::external_body]
fn is_alphabetic_char(c: char) -> (r: bool)
    ensures
        r == char_alphabetic(c),
{
    c.is_alphabetic()
}

/// Relies on char::is_whitespace: the result depends on the character alone.
#[verifier::external_body]
fn is_whitespace_char(c: char) -> (r: bool)
    ensures
        r == char_whitespace(c),
{
    c.is_whitespace()
}

fn is_digit_char(c: char) -> (r: bool)
    ensures
        r == is_digit_c(c),
{
    let u: u32 = c as u32;
    48 <= u && u <= 57
}

/// A character that may continue a name, an identifier, or a keyword.
pub open spec fn is_name_c(c: char) -> bool {
    is_digit_c(c) || char_alphabetic(c) || c == '_'
}

fn is_name_char(c: char) -> (r: bool)
    ensures
        r == is_name_c(c),
{
    is_digit_char(c) || is_alphabetic_char(c) || c == '_'
}

// ------------------------------------------------------------------
// Small string helpers
// ------------------------------------------------------------------

/// Relies on String::push: appends the character at the end of the string.
#[verifier::external_body]
fn push_char(s: &mut String, c: char)
    ensures
        final(s)@ == old(s)@.push(c),
{
    s.push(c)
}

/// Character-for-character string equality.
pub fn str_eq(a: &str, b: &str) -> (r: bool)
    ensures
        r == (a@ == b@),
{
    let n: usize = a.unicode_len();
    let m: usize = b.unicode_len();
    if n != m {
        proof {
            assert(a@ != b@) by {
                if a@ == b@ {
                    assert(a@.len() == b@.len());
                }
            }
        }
        return false;
    }
    let mut i: usize = 0;
    while i < n
        invariant
            n == a@.len(),
            n == b@.len(),
            i <= n,
            forall|k: int| 0 <= k < i ==> a@[k] == b@[k],
        decreases n - i,
    {
        if a.get_char(i) != b.get_char(i) {
            proof {
                assert(a@[i as int] != b@[i as int]);
            }
            return false;
        }
        i += 1;
    }
    proof {
        assert(a@ =~= b@);
    }
    true
}

// ------------------------------------------------------------------
// Runs of characters
// ------------------------------------------------------------------

/// The end of the run of decimal digits that starts at `i`.
pub open spec fn digit_run_end(s: Seq<char>, i: int) -> int
    decreases s.len() - i,
{
    if i < s.len() && is_digit_c(s[i]) {
        digit_run_end(s, i + 1)
    } else {
        i
    }
}

pub proof fn lemma_digit_run_end(s: Seq<char>, i: int)
    requires
        0 <= i <= s.len(),
    ensures
        i <= digit_run_end(s, i) <= s.len(),
        forall|k: int| i <= k < digit_run_end(s, i) ==> is_digit_c(s[k]),
        digit_run_end(s, i) < s.len() ==> !is_digit_c(s[digit_run_end(s, i)]),
    decreases s.len() - i,
{
    if i < s.len() && is_digit_c(s[i]) {
        lemma_digit_run_end(s, i + 1);
    }
}

/// The end of the run of name characters that starts at `i`.
pub open spec fn name_run_end(s: Seq<char>, i: int) -> int
    decreases s.len() - i,
{
    if i < s.len() && is_name_c(s[i]) {
        name_run_end(s, i + 1)
    } else {
        i
    }
}

pub proof fn lemma_name_run_end(s: Seq<char>, i: int)
    requires
        0 <= i <= s.len(),
    ensures
        i <= name_run_end(s, i) <= s.len(),
        forall|k: int| i <= k < name_run_end(s, i) ==> is_name_c(s[k]),
        name_run_end(s, i) < s.len() ==> !is_name_c(s[name_run_end(s, i)]),
    decreases s.len() - i,
{
    if i < s.len() && is_name_c(s[i]) {
        lemma_name_run_end(s, i + 1);
    }
}

/// Scans the run of characters satisfying the digit class from `*pos`,
/// appending them to `out`.
fn scan_digits(line: &str, pos: &mut usize, out: &mut String)
    requires
        *old(pos) <= line@.len(),
    ensures
        *final(pos) == digit_run_end(line@, *old(pos) as int),
        final(out)@ == old(out)@ + line@.subrange(*old(pos) as int, *final(pos) as int),
{
    let n: usize = line.unicode_len();
    proof {
        lemma_digit_run_end(line@, *pos as int);
    }
    let ghost end = digit_run_end(line@, *old(pos) as int);
    loop
        invariant_except_break
            n == line@.len(),
            *old(pos) <= *pos <= n,
            end == digit_run_end(line@, *old(pos) as int),
            *pos <= end,
            digit_run_end(line@, *pos as int) == end,
            out@ == old(out)@ + line@.subrange(*old(pos) as int, *pos as int),
        ensures
            *pos == end,
            out@ == old(out)@ + line@.subrange(*old(pos) as int, end),
        decreases n - *pos,
    {
        if !(*pos < n) {
            proof {
                assert(digit_run_end(line@, *pos as int) == *pos as int);
            }
            break;
        }
        let c = line.get_char(*pos);
        if !is_digit_char(c) {
            proof {
                assert(digit_run_end(line@, *pos as int) == *pos as int);
            }
            break;
        }
        push_char(out, c);
        proof {
            assert(digit_run_end(line@, *pos as int) == digit_run_end(line@, *pos as int + 1));
            assert(line@.subrange(*old(pos) as int, *pos + 1)
                =~= line@.subrange(*old(pos) as int, *pos as int).push(line@[*pos as int]));
        }
        *pos += 1;
        proof {
            lemma_digit_run_end(line@, *pos as int);
        }
    }
}

/// Scans the run of name characters from `*pos`, appending them to `out`.
fn scan_name_chars(line: &str, pos: &mut usize, out: &mut String)
    requires
        *old(pos) <= line@.len(),
    ensures
        *final(pos) == name_run_end(line@, *old(pos) as int),
        final(out)@ == old(out)@ + line@.subrange(*old(pos) as int, *final(pos) as int),
{
    let n: usize = line.unicode_len();
    proof {
        lemma_name_run_end(line@, *pos as int);
    }
    let ghost end = name_run_end(line@, *old(pos) as int);
    loop
        invariant_except_break
            n == line@.len(),
            *old(pos) <= *pos <= n,
            end == name_run_end(line@, *old(pos) as int),
            *pos <= end,
            name_run_end(line@, *pos as int) == end,
            out@ == old(out)@ + line@.subrange(*old(pos) as int, *pos as int),
        ensures
            *pos == end,
            out@ == old(out)@ + line@.subrange(*old(pos) as int, end),
        decreases n - *pos,
    {
        if !(*pos < n) {
            proof {
                assert(name_run_end(line@, *pos as int) == *pos as int);
            }
            break;
        }
        let c = line.get_char(*pos);
        if !is_name_char(c) {
            proof {
                assert(name_run_end(line@, *pos as int) == *pos as int);
            }
            break;
        }
        push_char(out, c);
        proof {
            assert(name_run_end(line@, *pos as int) == name_run_end(line@, *pos as int + 1));
            assert(line@.subrange(*old(pos) as int, *pos + 1)
                =~= line@.subrange(*old(pos) as int, *pos as int).push(line@[*pos as int]));
        }
        *pos += 1;
        proof {
            lemma_name_run_end(line@, *pos as int);
        }
    }
}


// ------------------------------------------------------------------
// Integer literals
// ------------------------------------------------------------------

/// The value of a sequence of decimal digits, most significant first.
pub open spec fn digits_val(s: Seq<char>) -> int
    decreases s.len(),
{
    if s.len() == 0 {
        0
    } else {
        digits_val(s.drop_last()) * 10 + (s.last() as u32 - 48)
    }
}

pub proof fn lemma_digits_val_nonneg(s: Seq<char>)
    requires
        forall|k: int| 0 <= k < s.len() ==> is_digit_c(s[k]),
    ensures
        digits_val(s) >= 0,
    decreases s.len(),
{
    if s.len() > 0 {
        lemma_digits_val_nonneg(s.drop_last());
    }
}

pub proof fn lemma_digits_val_mono(s: Seq<char>, j: int)
    requires
        forall|k: int| 0 <= k < s.len() ==> is_digit_c(s[k]),
        0 <= j <= s.len(),
    ensures
        digits_val(s.subrange(0, j)) <= digits_val(s),
    decreases s.len(),
{
    if j == s.len() {
        assert(s.subrange(0, j) =~= s);
    } else {
        assert(s.drop_last() =~= s.subrange(0, s.len() - 1));
        lemma_digits_val_nonneg(s.drop_last());
        lemma_digits_val_mono(s.drop_last(), j);
        assert(s.drop_last().subrange(0, j) =~= s.subrange(0, j));
    }
}

/// What `tokenize_number` does at position `i`: the maximal digit run from
/// `i` becomes one integer token, unless its value does not fit in an `i64`.
pub open spec fn sp_number(s: Seq<char>, i: int, row: u64) -> LexStep {
    let j = digit_run_end(s, i);
    let loc = TokLoc { row, col: i as u64 };
    if j == i {
        LexStep::Miss
    } else if digits_val(s.subrange(i, j)) > i64::MAX {
        LexStep::Fail(LexError::IntegerOverflow(loc))
    } else {
        LexStep::Tok(TokenAbs::Integer(digits_val(s.subrange(i, j)) as i64), loc, j)
    }
}

/// Scans an integer literal: the maximal run of decimal digits from `*pos`.
pub fn tokenize_number(line: &str, pos: &mut usize, row: u64) -> (r: Result<
    Option<Token>,
    LexError,
>)
    requires
        *old(pos) <= line@.len(),
    ensures
        step_matches(sp_number(line@, *old(pos) as int, row), r, *old(pos) as int, *final(pos) as int),
        r matches Ok(o) && o is Some ==> *old(pos) < *final(pos) <= line@.len(),
{
    let n: usize = line.unicode_len();
    let start: usize = *pos;
    let ghost end = digit_run_end(line@, start as int);
    proof {
        lemma_digit_run_end(line@, start as int);
    }
    let loc = TokLoc { row, col: start as u64 };
    let mut acc: i64 = 0;
    loop
        invariant_except_break
            n == line@.len(),
            start == *old(pos),
            loc == (TokLoc { row, col: start as u64 }),
            start <= *pos <= n,
            end == digit_run_end(line@, start as int),
            *pos <= end,
            digit_run_end(line@, *pos as int) == end,
            acc == digits_val(line@.subrange(start as int, *pos as int)),
            forall|k: int| start <= k < end ==> is_digit_c(line@[k]),
        ensures
            *pos == end,
            acc == digits_val(line@.subrange(start as int, end)),
        decreases n - *pos,
    {
        if !(*pos < n) {
            proof {
                assert(digit_run_end(line@, *pos as int) == *pos as int);
            }
            break;
        }
        let c = line.get_char(*pos);
        if !is_digit_char(c) {
            proof {
                assert(digit_run_end(line@, *pos as int) == *pos as int);
            }
            break;
        }
        proof {
            assert(digit_run_end(line@, *pos as int) == digit_run_end(line@, *pos as int + 1));
        }
        let d: u32 = (c as u32) - 48;
        let ghost pre = line@.subrange(start as int, *pos as int);
        let ghost cur = line@.subrange(start as int, *pos as int + 1);
        proof {
            assert(cur.drop_last() =~= pre);
            assert(cur.last() == line@[*pos as int]);
        }
        let step = match acc.checked_mul(10) {
            Some(m) => m.checked_add(d as i64),
            None => None,
        };
        match step {
            Some(next) => {
                acc = next;
            },
            None => {
                proof {
                    assert(forall|k: int| 0 <= k < pre.len() ==> is_digit_c(#[trigger] pre[k]));
                    lemma_digits_val_nonneg(pre);
                    assert(is_digit_c(line@[*pos as int]));
                    assert(cur.len() > 0);
                    assert(digits_val(cur) == digits_val(pre) * 10 + (cur.last() as u32 - 48));
                    assert(digits_val(cur) > i64::MAX);
                    lemma_digit_run_end(line@, *pos as int + 1);
                    assert(*pos as int + 1 <= end);
                    let run = line@.subrange(start as int, end);
                    assert forall|k: int| 0 <= k < run.len() implies is_digit_c(#[trigger] run[k]) by {
                        assert(run[k] == line@[start as int + k]);
                    }
                    lemma_digits_val_mono(run, *pos as int + 1 - start);
                    assert(run.subrange(0, *pos as int + 1 - start) =~= cur);
                }
                return Err(LexError::IntegerOverflow(loc));
            },
        }
        *pos += 1;
        proof {
            lemma_digit_run_end(line@, *pos as int);
        }
    }
    if *pos == start {
        return Ok(None);
    }
    Ok(Some(Token::Integer(acc, loc)))
}

// ------------------------------------------------------------------
// Sigiled names
// ------------------------------------------------------------------

/// What `tokenize_varname` does at position `i`: a `%` sigil followed by a
/// non-empty run of name characters becomes a variable-name token.
pub open spec fn sp_varname(s: Seq<char>, i: int, row: u64) -> LexStep {
    if i < s.len() && s[i] == '%' {
        let j = name_run_end(s, i + 1);
        let loc = TokLoc { row, col: i as u64 };
        if j == i + 1 {
            LexStep::Fail(LexError::ZeroLengthVarName(loc))
        } else {
            LexStep::Tok(TokenAbs::VarName(s.subrange(i + 1, j)), loc, j)
        }
    } else {
        LexStep::Miss
    }
}

/// What `tokenize_funcname` does at position `i`: the same as `sp_varname`,
/// for the `@` sigil.
pub open spec fn sp_funcname(s: Seq<char>, i: int, row: u64) -> LexStep {
    if i < s.len() && s[i] == '@' {
        let j = name_run_end(s, i + 1);
        let loc = TokLoc { row, col: i as u64 };
        if j == i + 1 {
            LexStep::Fail(LexError::ZeroLengthFuncName(loc))
        } else {
            LexStep::Tok(TokenAbs::FuncName(s.subrange(i + 1, j)), loc, j)
        }
    } else {
        LexStep::Miss
    }
}

/// Scans a variable name: a `%` sigil and the name characters after it.
pub fn tokenize_varname(line: &str, pos: &mut usize, row: u64) -> (r: Result<
    Option<Token>,
    LexError,
>)
    requires
        *old(pos) <= line@.len(),
    ensures
        step_matches(sp_varname(line@, *old(pos) as int, row), r, *old(pos) as int, *final(pos) as int),
        r matches Ok(o) && o is Some ==> *old(pos) < *final(pos) <= line@.len(),
{
    let n: usize = line.unicode_len();
    if *pos < n && line.get_char(*pos) == '%' {
        let loc = TokLoc { row, col: *pos as u64 };
        *pos += 1;
        let mut s = String::new();
        scan_name_chars(line, pos, &mut s);
        proof {
            lemma_name_run_end(line@, *old(pos) as int + 1);
        }
        if s.unicode_len() == 0 {
            return Err(LexError::ZeroLengthVarName(loc));
        }
        Ok(Some(Token::VarName(s, loc)))
    } else {
        Ok(None)
    }
}

/// Scans a function name: an `@` sigil and the name characters after it.
pub fn tokenize_funcname(line: &str, pos: &mut usize, row: u64) -> (r: Result<
    Option<Token>,
    LexError,
>)
    requires
        *old(pos) <= line@.len(),
    ensures
        step_matches(sp_funcname(line@, *old(pos) as int, row), r, *old(pos) as int, *final(pos) as int),
        r matches Ok(o) && o is Some ==> *old(pos) < *final(pos) <= line@.len(),
{
    let n: usize = line.unicode_len();
    if *pos < n && line.get_char(*pos) == '@' {
        let loc = TokLoc { row, col: *pos as u64 };
        *pos += 1;
        let mut s = String::new();
        scan_name_chars(line, pos, &mut s);
        proof {
            lemma_name_run_end(line@, *old(pos) as int + 1);
        }
        if s.unicode_len() == 0 {
            return Err(LexError::ZeroLengthFuncName(loc));
        }
        Ok(Some(Token::FuncName(s, loc)))
    } else {
        Ok(None)
    }
}

// ------------------------------------------------------------------
// Keywords, identifiers and the underscore
// ------------------------------------------------------------------

/// The keyword token a word stands for, if it is a keyword.
pub open spec fn keyword_abs(w: Seq<char>) -> Option<TokenAbs> {
    if w == "i8"@ {
        Some(TokenAbs::I8Keyword)
    } else if w == "i16"@ {
        Some(TokenAbs::I16Keyword)
    } else if w == "i32"@ {
        Some(TokenAbs::I32Keyword)
    } else if w == "i64"@ {
        Some(TokenAbs::I64Keyword)
    } else if w == "f32"@ {
        Some(TokenAbs::F32Keyword)
    } else if w == "f64"@ {
        Some(TokenAbs::F64Keyword)
    } else if w == "void"@ {
        Some(TokenAbs::VoidKeyword)
    } else if w == "func"@ {
        Some(TokenAbs::FuncKeyword)
    } else if w == "add"@ {
        Some(TokenAbs::AddKeyword)
    } else if w == "sub"@ {
        Some(TokenAbs::SubKeyword)
    } else if w == "let"@ {
        Some(TokenAbs::LetKeyword)
    } else if w == "ret"@ {
        Some(TokenAbs::RetKeyword)
    } else if w == "call"@ {
        Some(TokenAbs::CallKeyword)
    } else {
        None
    }
}

/// What `tokenize_ident` does at position `i`: the maximal run of name
/// characters becomes a keyword, the underscore, or a plain identifier.
pub open spec fn sp_ident(s: Seq<char>, i: int, row: u64) -> LexStep {
    let j = name_run_end(s, i);
    let loc = TokLoc { row, col: i as u64 };
    if j == i {
        LexStep::Miss
    } else {
        let w = s.subrange(i, j);
        match keyword_abs(w) {
            Some(a) => LexStep::Tok(a, loc, j),
            None => {
                if w == "_"@ {
                    LexStep::Tok(TokenAbs::Underscore, loc, j)
                } else {
                    LexStep::Tok(TokenAbs::Ident(w), loc, j)
                }
            },
        }
    }
}

/// Scans a word: a keyword of the language, the underscore, or an
/// identifier.
pub fn tokenize_ident(line: &str, pos: &mut usize, row: u64) -> (r: Result<
    Option<Token>,
    LexError,
>)
    requires
        *old(pos) <= line@.len(),
    ensures
        step_matches(sp_ident(line@, *old(pos) as int, row), r, *old(pos) as int, *final(pos) as int),
        r matches Ok(o) && o is Some ==> *old(pos) < *final(pos) <= line@.len(),
{
    let loc = TokLoc { row, col: *pos as u64 };
    let mut s = String::new();
    scan_name_chars(line, pos, &mut s);
    proof {
        lemma_name_run_end(line@, *old(pos) as int);
    }
    if s.unicode_len() == 0 {
        return Ok(None);
    }
    let w = s.as_str();
    let t = if str_eq(w, "i8") {
        Token::I8Keyword(loc)
    } else if str_eq(w, "i16") {
        Token::I16Keyword(loc)
    } else if str_eq(w, "i32") {
        Token::I32Keyword(loc)
    } else if str_eq(w, "i64") {
        Token::I64Keyword(loc)
    } else if str_eq(w, "f32") {
        Token::F32Keyword(loc)
    } else if str_eq(w, "f64") {
        Token::F64Keyword(loc)
    } else if str_eq(w, "void") {
        Token::VoidKeyword(loc)
    } else if str_eq(w, "func") {
        Token::FuncKeyword(loc)
    } else if str_eq(w, "add") {
        Token::AddKeyword(loc)
    } else if str_eq(w, "sub") {
        Token::SubKeyword(loc)
    } else if str_eq(w, "let") {
        Token::LetKeyword(loc)
    } else if str_eq(w, "ret") {
        Token::RetKeyword(loc)
    } else if str_eq(w, "call") {
        Token::CallKeyword(loc)
    } else if str_eq(w, "_") {
        Token::Underscore(loc)
    } else {
        Token::Ident(s, loc)
    };
    Ok(Some(t))
}


// ------------------------------------------------------------------
// Punctuation and operators
// ------------------------------------------------------------------

/// What `tokenize_op` does at position `i`: one- and two-character
/// punctuation. A two-character token carries the column of its second
/// character.
pub open spec fn sp_op(s: Seq<char>, i: int, row: u64) -> LexStep {
    if i >= s.len() {
        LexStep::Miss
    } else {
        let c = s[i];
        let loc1 = TokLoc { row, col: i as u64 };
        let loc2 = TokLoc { row, col: (i + 1) as u64 };
        let two = i + 1 < s.len();
        if c == '!' {
            LexStep::Tok(TokenAbs::Bang, loc1, i + 1)
        } else if c == '(' {
            LexStep::Tok(TokenAbs::LParen, loc1, i + 1)
        } else if c == ')' {
            LexStep::Tok(TokenAbs::RParen, loc1, i + 1)
        } else if c == '{' {
            LexStep::Tok(TokenAbs::LBrace, loc1, i + 1)
        } else if c == '}' {
            LexStep::Tok(TokenAbs::RBrace, loc1, i + 1)
        } else if c == '[' {
            LexStep::Tok(TokenAbs::LBracket, loc1, i + 1)
        } else if c == ']' {
            LexStep::Tok(TokenAbs::RBracket, loc1, i + 1)
        } else if c == '<' {
            LexStep::Tok(TokenAbs::LWakka, loc1, i + 1)
        } else if c == '>' {
            LexStep::Tok(TokenAbs::RWakka, loc1, i + 1)
        } else if c == '?' {
            LexStep::Tok(TokenAbs::QuestionMark, loc1, i + 1)
        } else if c == ',' {
            LexStep::Tok(TokenAbs::Comma, loc1, i + 1)
        } else if c == '#' {
            LexStep::Tok(TokenAbs::Pound, loc1, i + 1)
        } else if c == '*' {
            LexStep::Tok(TokenAbs::Asterisk, loc1, i + 1)
        } else if c == ':' {
            if two && s[i + 1] == ':' {
                LexStep::Tok(TokenAbs::DoubleColon, loc2, i + 2)
            } else {
                LexStep::Tok(TokenAbs::Colon, loc1, i + 1)
            }
        } else if c == '&' {
            if two && s[i + 1] == '&' {
                LexStep::Tok(TokenAbs::DoubleAmpersand, loc2, i + 2)
            } else {
                LexStep::Tok(TokenAbs::Ampersand, loc1, i + 1)
            }
        } else if c == '|' {
            if two && s[i + 1] == '|' {
                LexStep::Tok(TokenAbs::DoublePipe, loc2, i + 2)
            } else {
                LexStep::Tok(TokenAbs::Pipe, loc1, i + 1)
            }
        } else if c == '-' {
            if two && s[i + 1] == '>' {
                LexStep::Tok(TokenAbs::RThinArrow, loc2, i + 2)
            } else {
                LexStep::Tok(TokenAbs::Minus, loc1, i + 1)
            }
        } else if c == '=' {
            if two && s[i + 1] == '>' {
                LexStep::Tok(TokenAbs::RFatArrow, loc2, i + 2)
            } else if two && s[i + 1] == '=' {
                LexStep::Tok(TokenAbs::DoubleEquals, loc2, i + 2)
            } else {
                LexStep::Tok(TokenAbs::Equals, loc1, i + 1)
            }
        } else if c == '.' {
            if two && s[i + 1] == '.' {
                LexStep::Tok(TokenAbs::DotDot, loc2, i + 2)
            } else {
                LexStep::Tok(TokenAbs::Dot, loc1, i + 1)
            }
        } else {
            LexStep::Miss
        }
    }
}

/// Scans one- and two-character punctuation.
pub fn tokenize_op(line: &str, pos: &mut usize, row: u64) -> (r: Result<Option<Token>, LexError>)
    requires
        *old(pos) <= line@.len(),
    ensures
        step_matches(sp_op(line@, *old(pos) as int, row), r, *old(pos) as int, *final(pos) as int),
        r matches Ok(o) && o is Some ==> *old(pos) < *final(pos) <= line@.len(),
{
    let n: usize = line.unicode_len();
    if !(*pos < n) {
        return Ok(None);
    }
    let c = line.get_char(*pos);
    let loc1 = TokLoc { row, col: *pos as u64 };
    let loc2 = TokLoc { row, col: (*pos + 1) as u64 };
    let two = *pos + 1 < n;
    let second = if two {
        line.get_char(*pos + 1)
    } else {
        ' '
    };
    match c {
        '!' => {
            *pos += 1;
            Ok(Some(Token::Bang(loc1)))
        },
        '(' => {
            *pos += 1;
            Ok(Some(Token::LParen(loc1)))
        },
        ')' => {
            *pos += 1;
            Ok(Some(Token::RParen(loc1)))
        },
        '{' => {
            *pos += 1;
            Ok(Some(Token::LBrace(loc1)))
        },
        '}' => {
            *pos += 1;
            Ok(Some(Token::RBrace(loc1)))
        },
        '[' => {
            *pos += 1;
            Ok(Some(Token::LBracket(loc1)))
        },
        ']' => {
            *pos += 1;
            Ok(Some(Token::RBracket(loc1)))
        },
        '<' => {
            *pos += 1;
            Ok(Some(Token::LWakka(loc1)))
        },
        '>' => {
            *pos += 1;
            Ok(Some(Token::RWakka(loc1)))
        },
        '?' => {
            *pos += 1;
            Ok(Some(Token::QuestionMark(loc1)))
        },
        ',' => {
            *pos += 1;
            Ok(Some(Token::Comma(loc1)))
        },
        '#' => {
            *pos += 1;
            Ok(Some(Token::Pound(loc1)))
        },
        '*' => {
            *pos += 1;
            Ok(Some(Token::Asterisk(loc1)))
        },
        ':' => {
            if two && second == ':' {
                *pos += 2;
                Ok(Some(Token::DoubleColon(loc2)))
            } else {
                *pos += 1;
                Ok(Some(Token::Colon(loc1)))
            }
        },
        '&' => {
            if two && second == '&' {
                *pos += 2;
                Ok(Some(Token::DoubleAmpersand(loc2)))
            } else {
                *pos += 1;
                Ok(Some(Token::Ampersand(loc1)))
            }
        },
        '|' => {
            if two && second == '|' {
                *pos += 2;
                Ok(Some(Token::DoublePipe(loc2)))
            } else {
                *pos += 1;
                Ok(Some(Token::Pipe(loc1)))
            }
        },
        '-' => {
            if two && second == '>' {
                *pos += 2;
                Ok(Some(Token::RThinArrow(loc2)))
            } else {
                *pos += 1;
                Ok(Some(Token::Minus(loc1)))
            }
        },
        '=' => {
            if two && second == '>' {
                *pos += 2;
                Ok(Some(Token::RFatArrow(loc2)))
            } else if two && second == '=' {
                *pos += 2;
                Ok(Some(Token::DoubleEquals(loc2)))
            } else {
                *pos += 1;
                Ok(Some(Token::Equals(loc1)))
            }
        },
        '.' => {
            if two && second == '.' {
                *pos += 2;
                Ok(Some(Token::DotDot(loc2)))
            } else {
                *pos += 1;
                Ok(Some(Token::Dot(loc1)))
            }
        },
        _ => Ok(None),
    }
}

// ------------------------------------------------------------------
// String and character literals
// ------------------------------------------------------------------

/// The body of a string literal from position `i`: the characters up to an
/// unescaped closing quote (or the end of the line), and the position after
/// the literal. Backslashes stay in the body; they only guard the next
/// character from closing the literal.
pub open spec fn sp_str_body(s: Seq<char>, i: int, escaped: bool) -> (Seq<char>, int)
    decreases s.len() - i,
{
    if i >= s.len() {
        (Seq::<char>::empty(), i)
    } else {
        let c = s[i];
        if c == '"' && !escaped {
            (Seq::<char>::empty(), i + 1)
        } else {
            let esc2 = c == '\\' && !escaped;
            let r = sp_str_body(s, i + 1, esc2);
            (seq![c] + r.0, r.1)
        }
    }
}

pub proof fn lemma_sp_str_body(s: Seq<char>, i: int, escaped: bool)
    requires
        0 <= i <= s.len(),
    ensures
        i <= sp_str_body(s, i, escaped).1 <= s.len(),
    decreases s.len() - i,
{
    if i < s.len() {
        let c = s[i];
        if !(c == '"' && !escaped) {
            lemma_sp_str_body(s, i + 1, c == '\\' && !escaped);
        }
    }
}

/// What `tokenize_str` does at position `i`: a double quote opens a string
/// literal that runs to an unescaped closing quote or to the end of the
/// line.
pub open spec fn sp_str(s: Seq<char>, i: int, row: u64) -> LexStep {
    if i < s.len() && s[i] == '"' {
        let b = sp_str_body(s, i + 1, false);
        LexStep::Tok(TokenAbs::StrLit(b.0), TokLoc { row, col: i as u64 }, b.1)
    } else {
        LexStep::Miss
    }
}

/// Scans a string literal.
pub fn tokenize_str(line: &str, pos: &mut usize, row: u64) -> (r: Result<Option<Token>, LexError>)
    requires
        *old(pos) <= line@.len(),
    ensures
        step_matches(sp_str(line@, *old(pos) as int, row), r, *old(pos) as int, *final(pos) as int),
        r matches Ok(o) && o is Some ==> *old(pos) < *final(pos) <= line@.len(),
{
    let n: usize = line.unicode_len();
    if !(*pos < n && line.get_char(*pos) == '"') {
        return Ok(None);
    }
    let loc = TokLoc { row, col: *pos as u64 };
    let ghost start_body = *pos as int + 1;
    *pos += 1;
    let mut s = String::new();
    let mut escaped = false;
    proof {
        lemma_sp_str_body(line@, start_body, false);
    }
    loop
        invariant_except_break
            n == line@.len(),
            start_body <= *pos as int <= n as int,
            sp_str_body(line@, start_body, false).0 == s@ + sp_str_body(
                line@,
                *pos as int,
                escaped,
            ).0,
            sp_str_body(line@, start_body, false).1 == sp_str_body(line@, *pos as int, escaped).1,
        ensures
            s@ == sp_str_body(line@, start_body, false).0,
            *pos as int == sp_str_body(line@, start_body, false).1,
        decreases n - *pos,
    {
        if !(*pos < n) {
            proof {
                assert(sp_str_body(line@, *pos as int, escaped) == (Seq::<char>::empty(), *pos as int));
                assert(s@ + Seq::<char>::empty() =~= s@);
            }
            break;
        }
        let c = line.get_char(*pos);
        if c == '"' && !escaped {
            proof {
                assert(sp_str_body(line@, *pos as int, escaped) == (
                    Seq::<char>::empty(),
                    *pos as int + 1,
                ));
                assert(s@ + Seq::<char>::empty() =~= s@);
            }
            *pos += 1;
            break;
        }
        proof {
            let r = sp_str_body(line@, *pos as int + 1, c == '\\' && !escaped);
            assert(sp_str_body(line@, *pos as int, escaped) == (seq![line@[*pos as int]] + r.0, r.1));
            assert(s@ + (seq![line@[*pos as int]] + r.0) =~= s@.push(line@[*pos as int]) + r.0);
            lemma_sp_str_body(line@, *pos as int + 1, c == '\\' && !escaped);
        }
        if c == '\\' && !escaped {
            escaped = true;
        } else {
            escaped = false;
        }
        push_char(&mut s, c);
        *pos += 1;
    }
    Ok(Some(Token::StrLit(s, loc)))
}

/// The body of a character literal from position `i`: as for a string
/// literal with a single-quote terminator, except that an empty literal or
/// one whose body runs past three characters is an error.
pub open spec fn sp_char_body(s: Seq<char>, i: int, escaped: bool, index: int) -> Result<
    (Seq<char>, int),
    (),
>
    decreases s.len() - i,
{
    if i >= s.len() {
        Ok((Seq::<char>::empty(), i))
    } else {
        let c = s[i];
        if index > 2 || (c == '\'' && index == 0) {
            Err(())
        } else if c == '\'' && !escaped {
            Ok((Seq::<char>::empty(), i + 1))
        } else {
            let esc2 = c == '\\' && !escaped;
            match sp_char_body(s, i + 1, esc2, index + 1) {
                Ok(r) => Ok((seq![c] + r.0, r.1)),
                Err(e) => Err(e),
            }
        }
    }
}

pub proof fn lemma_sp_char_body(s: Seq<char>, i: int, escaped: bool, index: int)
    requires
        0 <= i <= s.len(),
    ensures
        sp_char_body(s, i, escaped, index) matches Ok(r) ==> i <= r.1 <= s.len(),
    decreases s.len() - i,
{
    if i < s.len() {
        let c = s[i];
        if !(index > 2 || (c == '\'' && index == 0)) && !(c == '\'' && !escaped) {
            lemma_sp_char_body(s, i + 1, c == '\\' && !escaped, index + 1);
        }
    }
}

/// What `tokenize_char` does at position `i`: a single quote opens a
/// character literal of at most three body characters.
pub open spec fn sp_char(s: Seq<char>, i: int, row: u64) -> LexStep {
    if i < s.len() && s[i] == '\'' {
        let loc = TokLoc { row, col: i as u64 };
        match sp_char_body(s, i + 1, false, 0) {
            Ok(b) => LexStep::Tok(TokenAbs::CharLit(b.0), loc, b.1),
            Err(_) => LexStep::Fail(LexError::BadCharLit(loc)),
        }
    } else {
        LexStep::Miss
    }
}

/// Scans a character literal.
pub fn tokenize_char(line: &str, pos: &mut usize, row: u64) -> (r: Result<Option<Token>, LexError>)
    requires
        *old(pos) <= line@.len(),
    ensures
        step_matches(sp_char(line@, *old(pos) as int, row), r, *old(pos) as int, *final(pos) as int),
        r matches Ok(o) && o is Some ==> *old(pos) < *final(pos) <= line@.len(),
{
    let n: usize = line.unicode_len();
    if !(*pos < n && line.get_char(*pos) == '\'') {
        return Ok(None);
    }
    let loc = TokLoc { row, col: *pos as u64 };
    let ghost start_body = *pos as int + 1;
    *pos += 1;
    let mut s = String::new();
    let mut escaped = false;
    let mut index: usize = 0;
    proof {
        lemma_sp_char_body(line@, start_body, false, 0);
    }
    loop
        invariant_except_break
            n == line@.len(),
            start_body == *old(pos) as int + 1,
            *old(pos) < n,
            line@[*old(pos) as int] == '\'',
            loc == (TokLoc { row, col: *old(pos) as u64 }),
            start_body <= *pos as int <= n as int,
            index <= 3,
            ({
                let full = sp_char_body(line@, start_body, false, 0);
                let here = sp_char_body(line@, *pos as int, escaped, index as int);
                &&& (here matches Ok(r) ==> full matches Ok(f) && f.0 == s@ + r.0 && f.1 == r.1)
                &&& (here is Err ==> full is Err)
            }),
        ensures
            sp_char_body(line@, start_body, false, 0) matches Ok(f)
                && f.0 == s@
                && f.1 == *pos as int,
        decreases n - *pos,
    {
        if !(*pos < n) {
            proof {
                assert(sp_char_body(line@, *pos as int, escaped, index as int)
                    == Ok::<(Seq<char>, int), ()>((Seq::<char>::empty(), *pos as int)));
                assert(s@ + Seq::<char>::empty() =~= s@);
            }
            break;
        }
        let c = line.get_char(*pos);
        if index > 2 || (c == '\'' && index == 0) {
            proof {
                assert(sp_char_body(line@, *pos as int, escaped, index as int) is Err);
            }
            return Err(LexError::BadCharLit(loc));
        }
        if c == '\'' && !escaped {
            proof {
                assert(sp_char_body(line@, *pos as int, escaped, index as int)
                    == Ok::<(Seq<char>, int), ()>((Seq::<char>::empty(), *pos as int + 1)));
                assert(s@ + Seq::<char>::empty() =~= s@);
            }
            *pos += 1;
            break;
        }
        proof {
            let rec = sp_char_body(line@, *pos as int + 1, c == '\\' && !escaped, index as int + 1);
            assert(sp_char_body(line@, *pos as int, escaped, index as int) == (match rec {
                Ok(r) => Ok::<(Seq<char>, int), ()>((seq![line@[*pos as int]] + r.0, r.1)),
                Err(e) => Err::<(Seq<char>, int), ()>(e),
            }));
            match rec {
                Ok(r) => {
                    assert(s@ + (seq![line@[*pos as int]] + r.0) =~= s@.push(
                        line@[*pos as int],
                    ) + r.0);
                },
                Err(_) => {},
            }
        }
        if c == '\\' && !escaped {
            escaped = true;
        } else {
            escaped = false;
        }
        push_char(&mut s, c);
        index += 1;
        *pos += 1;
    }
    Ok(Some(Token::CharLit(s, loc)))
}

// ------------------------------------------------------------------
// A whole line
// ------------------------------------------------------------------

/// The shadows and locations of a sequence of tokens.
pub open spec fn toks_abs(ts: Seq<Token>) -> Seq<(TokenAbs, TokLoc)> {
    Seq::new(ts.len(), |k: int| (tok_abs(ts[k]), tok_loc(ts[k])))
}

/// What `tokenize_line` does from position `i` on: skip whitespace, stop at
/// a `;` comment, and otherwise try, in order, a string literal, a character
/// literal, punctuation, an integer, a variable name, a function name, and a
/// word; a character that starts none of them is skipped.
pub open spec fn sp_line_from(s: Seq<char>, i: int, row: u64) -> Result<
    Seq<(TokenAbs, TokLoc)>,
    LexError,
>
    decreases s.len() - i, 8int,
{
    if i >= s.len() {
        Ok(Seq::empty())
    } else if char_whitespace(s[i]) {
        sp_line_from(s, i + 1, row)
    } else if s[i] == ';' {
        Ok(Seq::empty())
    } else {
        sp_line_try(s, i, row, 0)
    }
}

/// Helper for `sp_line_from`: try the tokenizers in order, starting with
/// number `which`; past the last, skip the character.
pub open spec fn sp_line_try(s: Seq<char>, i: int, row: u64, which: int) -> Result<
    Seq<(TokenAbs, TokLoc)>,
    LexError,
>
    decreases s.len() - i, 7int - which,
{
    if i >= s.len() {
        Ok(Seq::empty())
    } else if which >= 7 {
        sp_line_from(s, i + 1, row)
    } else {
        let step = if which == 0 {
            sp_str(s, i, row)
        } else if which == 1 {
            sp_char(s, i, row)
        } else if which == 2 {
            sp_op(s, i, row)
        } else if which == 3 {
            sp_number(s, i, row)
        } else if which == 4 {
            sp_varname(s, i, row)
        } else if which == 5 {
            sp_funcname(s, i, row)
        } else {
            sp_ident(s, i, row)
        };
        match step {
            LexStep::Miss => sp_line_try(s, i, row, which + 1),
            LexStep::Fail(e) => Err(e),
            LexStep::Tok(a, l, j) => {
                if i < j <= s.len() {
                    match sp_line_from(s, j, row) {
                        Ok(rest) => Ok(seq![(a, l)] + rest),
                        Err(e) => Err(e),
                    }
                } else {
                    Ok(Seq::empty())
                }
            },
        }
    }
}

/// What `tokenize_line` returns for a whole line.
pub open spec fn sp_line(s: Seq<char>, row: u64) -> Result<Seq<(TokenAbs, TokLoc)>, LexError> {
    sp_line_from(s, 0, row)
}

/// Splits one source line into tokens. `row` is carried into every token's
/// location; a `;` starts a comment that runs to the end of the line.
pub fn tokenize_line(line: &str, row: u64) -> (r: Result<Vec<Token>, LexError>)
    ensures
        sp_line(line@, row) matches Ok(l) ==> r matches Ok(v) && toks_abs(v@) == l,
        sp_line(line@, row) matches Err(e) ==> r == Err::<Vec<Token>, LexError>(e),
{
    let n: usize = line.unicode_len();
    let mut tokens: Vec<Token> = Vec::new();
    let mut pos: usize = 0;
    loop
        invariant_except_break
            n == line@.len(),
            pos <= n,
            (sp_line_from(line@, pos as int, row) matches Ok(rest) ==> sp_line(line@, row)
                == Ok::<Seq<(TokenAbs, TokLoc)>, LexError>(toks_abs(tokens@) + rest)),
            (sp_line_from(line@, pos as int, row) matches Err(e) ==> sp_line(line@, row)
                == Err::<Seq<(TokenAbs, TokLoc)>, LexError>(e)),
        ensures
            sp_line(line@, row) matches Ok(l) && l == toks_abs(tokens@),
        decreases n - pos,
    {
        if !(pos < n) {
            proof {
                assert(sp_line_from(line@, pos as int, row)
                    == Ok::<Seq<(TokenAbs, TokLoc)>, LexError>(Seq::empty()));
                assert(toks_abs(tokens@) + Seq::<(TokenAbs, TokLoc)>::empty() =~= toks_abs(tokens@));
            }
            break;
        }
        let c = line.get_char(pos);
        if is_whitespace_char(c) {
            pos += 1;
        } else if c == ';' {
            proof {
                assert(sp_line_from(line@, pos as int, row)
                    == Ok::<Seq<(TokenAbs, TokLoc)>, LexError>(Seq::empty()));
                assert(toks_abs(tokens@) + Seq::<(TokenAbs, TokLoc)>::empty() =~= toks_abs(tokens@));
            }
            break;
        } else {
            let ghost pos0 = pos as int;
            let ghost toks0 = tokens@;
            let mut produced: Option<Token> = None;
            let mut which: usize = 0;
            match tokenize_str(line, &mut pos, row) {
                Err(e) => {
                    proof {
                        lemma_sp_line_try_fail(line@, pos0, row, 0, e);
                    }
                    return Err(e);
                },
                Ok(Some(t)) => {
                    produced = Some(t);
                },
                Ok(None) => {
                    match tokenize_char(line, &mut pos, row) {
                        Err(e) => {
                            proof {
                                lemma_sp_line_try_fail(line@, pos0, row, 1, e);
                            }
                            return Err(e);
                        },
                        Ok(Some(t)) => {
                            produced = Some(t);
                            which = 1;
                        },
                        Ok(None) => {
                            match tokenize_op(line, &mut pos, row) {
                                Err(e) => {
                                    proof {
                                        lemma_sp_line_try_fail(line@, pos0, row, 2, e);
                                    }
                                    return Err(e);
                                },
                                Ok(Some(t)) => {
                                    produced = Some(t);
                                    which = 2;
                                },
                                Ok(None) => {
                                    match tokenize_number(line, &mut pos, row) {
                                        Err(e) => {
                                            proof {
                                                lemma_sp_line_try_fail(line@, pos0, row, 3, e);
                                            }
                                            return Err(e);
                                        },
                                        Ok(Some(t)) => {
                                            produced = Some(t);
                                            which = 3;
                                        },
                                        Ok(None) => {
                                            match tokenize_varname(line, &mut pos, row) {
                                                Err(e) => {
                                                    proof {
                                                        lemma_sp_line_try_fail(line@, pos0, row, 4, e);
                                                    }
                                                    return Err(e);
                                                },
                                                Ok(Some(t)) => {
                                                    produced = Some(t);
                                                    which = 4;
                                                },
                                                Ok(None) => {
                                                    match tokenize_funcname(line, &mut pos, row) {
                                                        Err(e) => {
                                                            proof {
                                                                lemma_sp_line_try_fail(line@, pos0, row, 5, e);
                                                            }
                                                            return Err(e);
                                                        },
                                                        Ok(Some(t)) => {
                                                            produced = Some(t);
                                                            which = 5;
                                                        },
                                                        Ok(None) => {
                                                            match tokenize_ident(line, &mut pos, row) {
                                                                Err(e) => {
                                                                    proof {
                                                                        lemma_sp_line_try_fail(line@, pos0, row, 6, e);
                                                                    }
                                                                    return Err(e);
                                                                },
                                                                Ok(Some(t)) => {
                                                                    produced = Some(t);
                                                                    which = 6;
                                                                },
                                                                Ok(None) => {
                                                                    which = 7;
                                                                },
                                                            }
                                                        },
                                                    }
                                                },
                                            }
                                        },
                                    }
                                },
                            }
                        },
                    }
                },
            }
            match produced {
                Some(t) => {
                    proof {
                        lemma_sp_line_try_hit(line@, pos0, row, which as int, tok_abs(t), tok_loc(t), pos as int);
                        assert(toks_abs(toks0.push(t))
                            =~= toks_abs(toks0) + seq![(tok_abs(t), tok_loc(t))]);
                        match sp_line_from(line@, pos as int, row) {
                            Ok(rest) => {
                                assert((toks_abs(toks0) + seq![(tok_abs(t), tok_loc(t))]) + rest
                                    =~= toks_abs(toks0) + (seq![(tok_abs(t), tok_loc(t))] + rest));
                            },
                            Err(_) => {},
                        }
                    }
                    tokens.push(t);
                },
                None => {
                    proof {
                        lemma_sp_line_try_miss(line@, pos0, row);
                    }
                    pos += 1;
                },
            }
        }
    }
    Ok(tokens)
}

/// When the tokenizers up to `which` all declined at `i` and tokenizer
/// `which` yielded a token ending at `j`, the line's reading continues at
/// `j`.
proof fn lemma_sp_line_try_hit(
    s: Seq<char>,
    i: int,
    row: u64,
    which: int,
    a: TokenAbs,
    l: TokLoc,
    j: int,
)
    requires
        0 <= i < s.len(),
        !char_whitespace(s[i]),
        s[i] != ';',
        0 <= which <= 6,
        forall|w: int|
            0 <= w < which ==> sp_line_which(s, i, row, w) == LexStep::Miss,
        sp_line_which(s, i, row, which) == LexStep::Tok(a, l, j),
        i < j <= s.len(),
    ensures
        (sp_line_from(s, j, row) matches Ok(rest) ==> sp_line_from(s, i, row)
            == Ok::<Seq<(TokenAbs, TokLoc)>, LexError>(seq![(a, l)] + rest)),
        (sp_line_from(s, j, row) matches Err(e) ==> sp_line_from(s, i, row)
            == Err::<Seq<(TokenAbs, TokLoc)>, LexError>(e)),
{
    lemma_sp_line_try_shift(s, i, row, 0, which);
    assert(sp_line_from(s, i, row) == sp_line_try(s, i, row, 0));
}

/// The tokenizer a given position in the trial order stands for.
pub open spec fn sp_line_which(s: Seq<char>, i: int, row: u64, which: int) -> LexStep {
    if which == 0 {
        sp_str(s, i, row)
    } else if which == 1 {
        sp_char(s, i, row)
    } else if which == 2 {
        sp_op(s, i, row)
    } else if which == 3 {
        sp_number(s, i, row)
    } else if which == 4 {
        sp_varname(s, i, row)
    } else if which == 5 {
        sp_funcname(s, i, row)
    } else {
        sp_ident(s, i, row)
    }
}

/// Unrolls `sp_line_try` across tokenizers that decline.
proof fn lemma_sp_line_try_shift(s: Seq<char>, i: int, row: u64, from: int, to: int)
    requires
        0 <= i < s.len(),
        !char_whitespace(s[i]),
        s[i] != ';',
        0 <= from <= to <= 7,
        forall|w: int| from <= w < to ==> sp_line_which(s, i, row, w) == LexStep::Miss,
    ensures
        sp_line_try(s, i, row, from) == sp_line_try(s, i, row, to),
    decreases to - from,
{
    if from < to {
        assert(sp_line_which(s, i, row, from) == LexStep::Miss);
        assert(sp_line_try(s, i, row, from) == sp_line_try(s, i, row, from + 1));
        lemma_sp_line_try_shift(s, i, row, from + 1, to);
    }
}

/// When the tokenizers before `which` declined at `i` and tokenizer `which`
/// failed, the whole line fails with that error.
proof fn lemma_sp_line_try_fail(s: Seq<char>, i: int, row: u64, which: int, e: LexError)
    requires
        0 <= i < s.len(),
        !char_whitespace(s[i]),
        s[i] != ';',
        0 <= which <= 6,
        forall|w: int| 0 <= w < which ==> sp_line_which(s, i, row, w) == LexStep::Miss,
        sp_line_which(s, i, row, which) == LexStep::Fail(e),
    ensures
        sp_line_from(s, i, row) == Err::<Seq<(TokenAbs, TokLoc)>, LexError>(e),
{
    lemma_sp_line_try_shift(s, i, row, 0, which);
    assert(sp_line_from(s, i, row) == sp_line_try(s, i, row, 0));
}

/// When every tokenizer declines, the character is skipped.
proof fn lemma_sp_line_try_miss(s: Seq<char>, i: int, row: u64)
    requires
        0 <= i < s.len(),
        !char_whitespace(s[i]),
        s[i] != ';',
        forall|w: int| 0 <= w < 7 ==> sp_line_which(s, i, row, w) == LexStep::Miss,
    ensures
        sp_line_from(s, i, row) == sp_line_from(s, i + 1, row),
{
    lemma_sp_line_try_shift(s, i, row, 0, 7);
    assert(sp_line_from(s, i, row) == sp_line_try(s, i, row, 0));
    assert(sp_line_try(s, i, row, 7) == sp_line_from(s, i + 1, row));
}

} // verus!
