use vstd::prelude::*;
use crate::err::JsonError;
use crate::token::Token;
use crate::token::TokenModel;
use crate::token::token_outcome;

verus! {

// ---------------------------------------------------------------------------
// Byte classes
// ---------------------------------------------------------------------------

/// Space, tab, newline or carriage return.
pub open spec fn is_ws(b: u8) -> bool {
    b == 32 || b == 9 || b == 10 || b == 13
}

pub open spec fn is_digit(b: u8) -> bool {
    48 <= b && b <= 57
}

pub open spec fn is_alpha(b: u8) -> bool {
    (65 <= b && b <= 90) || (97 <= b && b <= 122)
}

pub open spec fn is_alnum(b: u8) -> bool {
    is_digit(b) || is_alpha(b)
}

/// A byte that can continue a numeric lexeme: digits, `.`, `e`, `E`, `+`, `-`.
pub open spec fn is_num_byte(b: u8) -> bool {
    is_digit(b) || b == 46 || b == 101 || b == 69 || b == 43 || b == 45
}

pub open spec fn is_hex_digit(b: u8) -> bool {
    is_digit(b) || (97 <= b && b <= 102) || (65 <= b && b <= 70)
}

/// The value of a hexadecimal digit byte.
pub open spec fn hex_val(b: u8) -> int {
    if is_digit(b) {
        b - 48
    } else if 97 <= b && b <= 102 {
        b - 87
    } else {
        b - 55
    }
}

// ---------------------------------------------------------------------------
// Whitespace
// ---------------------------------------------------------------------------

/// The first index at or after `i` holding a non-whitespace byte, or the
/// input's length if only whitespace remains.
pub open spec fn skip_ws(s: Seq<u8>, i: int) -> int
    decreases s.len() - i,
{
    if 0 <= i && i < s.len() && is_ws(s[i]) {
        skip_ws(s, i + 1)
    } else {
        i
    }
}

pub proof fn lemma_skip_ws_bounds(s: Seq<u8>, i: int)
    requires
        0 <= i <= s.len(),
    ensures
        i <= skip_ws(s, i) <= s.len(),
    decreases s.len() - i,
{
    if i < s.len() && is_ws(s[i]) {
        lemma_skip_ws_bounds(s, i + 1);
    }
}

// ---------------------------------------------------------------------------
// String literals
// ---------------------------------------------------------------------------

/// The byte a single-character escape decodes to, if the escape is one of
/// `" \ / b f n r t`.
pub open spec fn esc_byte(b: u8) -> Option<u8> {
    if b == 34 {
        Some(34u8)
    } else if b == 92 {
        Some(92u8)
    } else if b == 47 {
        Some(47u8)
    } else if b == 98 {
        Some(8u8)
    } else if b == 102 {
        Some(12u8)
    } else if b == 110 {
        Some(10u8)
    } else if b == 114 {
        Some(13u8)
    } else if b == 116 {
        Some(9u8)
    } else {
        None
    }
}

/// The UTF-8 encoding of a code point in `0 .. 0x10000`.
pub open spec fn utf8_of(cp: int) -> Seq<u8> {
    if cp < 128 {
        seq![cp as u8]
    } else if cp < 2048 {
        seq![(192 + cp / 64) as u8, (128 + cp % 64) as u8]
    } else {
        seq![(224 + cp / 4096) as u8, (128 + (cp / 64) % 64) as u8, (128 + cp % 64) as u8]
    }
}

/// Scans a string literal's body from `i` (just past the opening quote),
/// decoding escapes into `acc`. Yields the decoded text and the index just
/// past the closing quote, or `UnterminatedString` when the input ends
/// first or an escape sequence is broken.
pub open spec fn scan_string(s: Seq<u8>, i: int, acc: Seq<u8>) -> Result<(Seq<u8>, int), JsonError>
    decreases s.len() - i,
{
    if i < 0 || i >= s.len() {
        Err(JsonError::UnterminatedString)
    } else if s[i] == 34 {
        Ok((acc, i + 1))
    } else if s[i] == 92 {
        if i + 1 < s.len() && s[i + 1] == 117 {
            if i + 6 <= s.len() && is_hex_digit(s[i + 2]) && is_hex_digit(s[i + 3])
                && is_hex_digit(s[i + 4]) && is_hex_digit(s[i + 5]) {
                scan_string(s, i + 6, acc + utf8_of(
                    hex_val(s[i + 2]) * 4096 + hex_val(s[i + 3]) * 256
                    + hex_val(s[i + 4]) * 16 + hex_val(s[i + 5])))
            } else {
                Err(JsonError::UnterminatedString)
            }
        } else if i + 1 < s.len() && esc_byte(s[i + 1]) is Some {
            scan_string(s, i + 2, acc.push(esc_byte(s[i + 1]).unwrap()))
        } else {
            Err(JsonError::UnterminatedString)
        }
    } else {
        scan_string(s, i + 1, acc.push(s[i]))
    }
}

pub proof fn lemma_scan_string_bounds(s: Seq<u8>, i: int, acc: Seq<u8>)
    requires
        0 <= i,
    ensures
        scan_string(s, i, acc) matches Ok(p) ==> i < p.1 <= s.len(),
    decreases s.len() - i,
{
    if 0 <= i && i < s.len() {
        if s[i] == 34 {
        } else if s[i] == 92 {
            if i + 1 < s.len() && s[i + 1] == 117 {
                if i + 6 <= s.len() && is_hex_digit(s[i + 2]) && is_hex_digit(s[i + 3])
                    && is_hex_digit(s[i + 4]) && is_hex_digit(s[i + 5]) {
                    lemma_scan_string_bounds(s, i + 6, acc + utf8_of(
                        hex_val(s[i + 2]) * 4096 + hex_val(s[i + 3]) * 256
                        + hex_val(s[i + 4]) * 16 + hex_val(s[i + 5])));
                }
            } else if i + 1 < s.len() && esc_byte(s[i + 1]) is Some {
                lemma_scan_string_bounds(s, i + 2, acc.push(esc_byte(s[i + 1]).unwrap()));
            }
        } else {
            lemma_scan_string_bounds(s, i + 1, acc.push(s[i]));
        }
    }
}

// ---------------------------------------------------------------------------
// Numbers
// ---------------------------------------------------------------------------

/// The end of the maximal run of number bytes starting at `i`.
pub open spec fn num_end(s: Seq<u8>, i: int) -> int
    decreases s.len() - i,
{
    if 0 <= i && i < s.len() && is_num_byte(s[i]) {
        num_end(s, i + 1)
    } else {
        i
    }
}

pub proof fn lemma_num_end_bounds(s: Seq<u8>, i: int)
    requires
        0 <= i <= s.len(),
    ensures
        i <= num_end(s, i) <= s.len(),
    decreases s.len() - i,
{
    if i < s.len() && is_num_byte(s[i]) {
        lemma_num_end_bounds(s, i + 1);
    }
}

/// The states of the numeric grammar: optional `-`; `0` or a nonzero digit
/// followed by digits; optional `.` and digits; optional `e`/`E`, optional
/// sign, and digits. `Mark` stands just after the exponent letter.
pub enum NumState {
    Start,
    Sign,
    Zero,
    Int,
    Dot,
    Frac,
    Mark,
    MarkSign,
    Exp,
    Bad,
}

/// One step of the numeric grammar on byte `b`.
pub open spec fn num_step(st: NumState, b: u8) -> NumState {
    match st {
        NumState::Start => if b == 45 {
            NumState::Sign
        } else if b == 48 {
            NumState::Zero
        } else if is_digit(b) {
            NumState::Int
        } else {
            NumState::Bad
        },
        NumState::Sign => if b == 48 {
            NumState::Zero
        } else if is_digit(b) {
            NumState::Int
        } else {
            NumState::Bad
        },
        NumState::Zero => if b == 46 {
            NumState::Dot
        } else if b == 101 || b == 69 {
            NumState::Mark
        } else {
            NumState::Bad
        },
        NumState::Int => if is_digit(b) {
            NumState::Int
        } else if b == 46 {
            NumState::Dot
        } else if b == 101 || b == 69 {
            NumState::Mark
        } else {
            NumState::Bad
        },
        NumState::Dot => if is_digit(b) {
            NumState::Frac
        } else {
            NumState::Bad
        },
        NumState::Frac => if is_digit(b) {
            NumState::Frac
        } else if b == 101 || b == 69 {
            NumState::Mark
        } else {
            NumState::Bad
        },
        NumState::Mark => if is_digit(b) {
            NumState::Exp
        } else if b == 43 || b == 45 {
            NumState::MarkSign
        } else {
            NumState::Bad
        },
        NumState::MarkSign => if is_digit(b) {
            NumState::Exp
        } else {
            NumState::Bad
        },
        NumState::Exp => if is_digit(b) {
            NumState::Exp
        } else {
            NumState::Bad
        },
        NumState::Bad => NumState::Bad,
    }
}

/// A state in which a numeric lexeme may end.
pub open spec fn num_accepts(st: NumState) -> bool {
    match st {
        NumState::Zero => true,
        NumState::Int => true,
        NumState::Frac => true,
        NumState::Exp => true,
        _ => false,
    }
}

/// Runs the numeric grammar over `s[k .. e]` starting from `st`.
pub open spec fn num_run(s: Seq<u8>, k: int, e: int, st: NumState) -> NumState
    decreases e - k,
{
    if e <= s.len() && 0 <= k && k < e {
        num_run(s, k + 1, e, num_step(st, s[k]))
    } else {
        st
    }
}

/// Whether `s[i .. e]` is a well-formed numeric lexeme.
pub open spec fn valid_num_range(s: Seq<u8>, i: int, e: int) -> bool {
    num_accepts(num_run(s, i, e, NumState::Start))
}

// ---------------------------------------------------------------------------
// Identifiers
// ---------------------------------------------------------------------------

/// The end of the maximal run of alphanumeric bytes starting at `i`.
pub open spec fn ident_end(s: Seq<u8>, i: int) -> int
    decreases s.len() - i,
{
    if 0 <= i && i < s.len() && is_alnum(s[i]) {
        ident_end(s, i + 1)
    } else {
        i
    }
}

pub proof fn lemma_ident_end_bounds(s: Seq<u8>, i: int)
    requires
        0 <= i <= s.len(),
    ensures
        i <= ident_end(s, i) <= s.len(),
    decreases s.len() - i,
{
    if i < s.len() && is_alnum(s[i]) {
        lemma_ident_end_bounds(s, i + 1);
    }
}

pub open spec fn word_true() -> Seq<u8> {
    seq![116u8, 114u8, 117u8, 101u8]
}

pub open spec fn word_false() -> Seq<u8> {
    seq![102u8, 97u8, 108u8, 115u8, 101u8]
}

pub open spec fn word_null() -> Seq<u8> {
    seq![110u8, 117u8, 108u8, 108u8]
}

// ---------------------------------------------------------------------------
// One token
// ---------------------------------------------------------------------------

/// The token beginning at `i`, after transparent whitespace skipping, and
/// the index just past it. On a lexical error the index is not meaningful.
pub open spec fn token_at(s: Seq<u8>, i: int) -> (Result<TokenModel, JsonError>, int) {
    let j = skip_ws(s, i);
    if j >= s.len() {
        (Ok(TokenModel::Eof), j)
    } else {
        let b = s[j];
        if b == 34 {
            match scan_string(s, j + 1, Seq::empty()) {
                Ok(p) => (Ok(TokenModel::Str(p.0)), p.1),
                Err(e) => (Err(e), s.len() as int),
            }
        } else if b == 123 {
            (Ok(TokenModel::LBrace), j + 1)
        } else if b == 125 {
            (Ok(TokenModel::RBrace), j + 1)
        } else if b == 91 {
            (Ok(TokenModel::LBracket), j + 1)
        } else if b == 93 {
            (Ok(TokenModel::RBracket), j + 1)
        } else if b == 44 {
            (Ok(TokenModel::Comma), j + 1)
        } else if b == 58 {
            (Ok(TokenModel::Colon), j + 1)
        } else if is_digit(b) || b == 45 {
            let e = num_end(s, j);
            if valid_num_range(s, j, e) {
                (Ok(TokenModel::Num(s.subrange(j, e))), e)
            } else {
                (Err(JsonError::MalformedNumber), e)
            }
        } else if is_alnum(b) {
            let e = ident_end(s, j);
            if s.subrange(j, e) == word_true() {
                (Ok(TokenModel::True), e)
            } else if s.subrange(j, e) == word_false() {
                (Ok(TokenModel::False), e)
            } else if s.subrange(j, e) == word_null() {
                (Ok(TokenModel::Null), e)
            } else {
                (Ok(TokenModel::Illegal), e)
            }
        } else {
            (Ok(TokenModel::Illegal), j + 1)
        }
    }
}

// ---------------------------------------------------------------------------
// The tokenizer
// ---------------------------------------------------------------------------

fn digit_byte(b: u8) -> (r: bool)
    ensures
        r == is_digit(b),
{
    48 <= b && b <= 57
}

fn alnum_byte(b: u8) -> (r: bool)
    ensures
        r == is_alnum(b),
{
    (48 <= b && b <= 57) || (65 <= b && b <= 90) || (97 <= b && b <= 122)
}

fn hex_digit_byte(b: u8) -> (r: bool)
    ensures
        r == is_hex_digit(b),
{
    (48 <= b && b <= 57) || (97 <= b && b <= 102) || (65 <= b && b <= 70)
}

fn hex_val_byte(b: u8) -> (r: u8)
    requires
        is_hex_digit(b),
    ensures
        r as int == hex_val(b),
{
    if 48 <= b && b <= 57 {
        b - 48
    } else if 97 <= b && b <= 102 {
        b - 87
    } else {
        b - 55
    }
}

fn esc_byte_of(b: u8) -> (r: Option<u8>)
    ensures
        r == esc_byte(b),
{
    if b == 34 {
        Some(34)
    } else if b == 92 {
        Some(92)
    } else if b == 47 {
        Some(47)
    } else if b == 98 {
        Some(8)
    } else if b == 102 {
        Some(12)
    } else if b == 110 {
        Some(10)
    } else if b == 114 {
        Some(13)
    } else if b == 116 {
        Some(9)
    } else {
        None
    }
}

fn num_step_on(st: NumState, b: u8) -> (r: NumState)
    ensures
        r == num_step(st, b),
{
    match st {
        NumState::Start => if b == 45 {
            NumState::Sign
        } else if b == 48 {
            NumState::Zero
        } else if digit_byte(b) {
            NumState::Int
        } else {
            NumState::Bad
        },
        NumState::Sign => if b == 48 {
            NumState::Zero
        } else if digit_byte(b) {
            NumState::Int
        } else {
            NumState::Bad
        },
        NumState::Zero => if b == 46 {
            NumState::Dot
        } else if b == 101 || b == 69 {
            NumState::Mark
        } else {
            NumState::Bad
        },
        NumState::Int => if digit_byte(b) {
            NumState::Int
        } else if b == 46 {
            NumState::Dot
        } else if b == 101 || b == 69 {
            NumState::Mark
        } else {
            NumState::Bad
        },
        NumState::Dot => if digit_byte(b) {
            NumState::Frac
        } else {
            NumState::Bad
        },
        NumState::Frac => if digit_byte(b) {
            NumState::Frac
        } else if b == 101 || b == 69 {
            NumState::Mark
        } else {
            NumState::Bad
        },
        NumState::Mark => if digit_byte(b) {
            NumState::Exp
        } else if b == 43 || b == 45 {
            NumState::MarkSign
        } else {
            NumState::Bad
        },
        NumState::MarkSign => if digit_byte(b) {
            NumState::Exp
        } else {
            NumState::Bad
        },
        NumState::Exp => if digit_byte(b) {
            NumState::Exp
        } else {
            NumState::Bad
        },
        NumState::Bad => NumState::Bad,
    }
}

/// Reads the one token that begins at `from`, skipping whitespace first,
/// and returns it with the index just past it. The token and the index are
/// exactly those of `token_at`; on a lexical error the index is the end of
/// the input for an unterminated string and the end of the offending run
/// for a malformed number.
#[verifier::loop_isolation(false)]
pub fn next_token(src: &[u8], from: usize) -> (r: (Result<Token, JsonError>, usize))
    requires
        from <= src@.len(),
    ensures
        token_outcome(r.0) == token_at(src@, from as int).0,
        r.0 is Ok ==> r.1 as int == token_at(src@, from as int).1,
        from <= r.1 <= src@.len(),
{
    proof {
        lemma_token_at_bounds(src@, from as int);
    }
    let mut i: usize = from;
    while i < src.len() && (src[i] == 32 || src[i] == 9 || src[i] == 10 || src[i] == 13)
        invariant
            from <= i <= src@.len(),
            skip_ws(src@, from as int) == skip_ws(src@, i as int),
        decreases src@.len() - i,
    {
        i = i + 1;
    }
    assert(i as int == skip_ws(src@, from as int));
    if i >= src.len() {
        return (Ok(Token::Eof), i);
    }
    let b = src[i];
    if b == 34 {
        let mut k: usize = i + 1;
        let mut out: Vec<u8> = Vec::new();
        loop
            invariant
                i + 1 <= k <= src@.len(),
                scan_string(src@, (i + 1) as int, Seq::<u8>::empty())
                    == scan_string(src@, k as int, out@),
            decreases src@.len() - k,
        {
            if k >= src.len() {
                return (Err(JsonError::UnterminatedString), src.len());
            }
            let c = src[k];
            if c == 34 {
                return (Ok(Token::Str(out)), k + 1);
            } else if c == 92 {
                if k + 1 >= src.len() {
                    return (Err(JsonError::UnterminatedString), src.len());
                }
                let e2 = src[k + 1];
                if e2 == 117 {
                    if src.len() - k < 6 {
                        return (Err(JsonError::UnterminatedString), src.len());
                    }
                    let h1 = src[k + 2];
                    let h2 = src[k + 3];
                    let h3 = src[k + 4];
                    let h4 = src[k + 5];
                    if !(hex_digit_byte(h1) && hex_digit_byte(h2) && hex_digit_byte(h3)
                        && hex_digit_byte(h4)) {
                        return (Err(JsonError::UnterminatedString), src.len());
                    }
                    let cp: u32 = hex_val_byte(h1) as u32 * 4096 + hex_val_byte(h2) as u32 * 256
                        + hex_val_byte(h3) as u32 * 16 + hex_val_byte(h4) as u32;
                    let ghost out0 = out@;
                    if cp < 128 {
                        out.push(cp as u8);
                    } else if cp < 2048 {
                        out.push((192 + cp / 64) as u8);
                        out.push((128 + cp % 64) as u8);
                    } else {
                        out.push((224 + cp / 4096) as u8);
                        out.push((128 + (cp / 64) % 64) as u8);
                        out.push((128 + cp % 64) as u8);
                    }
                    proof {
                        assert(out@ =~= out0 + utf8_of(cp as int));
                    }
                    k = k + 6;
                } else {
                    let m = esc_byte_of(e2);
                    match m {
                        Some(x) => {
                            out.push(x);
                            k = k + 2;
                        },
                        None => {
                            return (Err(JsonError::UnterminatedString), src.len());
                        },
                    }
                }
            } else {
                out.push(c);
                k = k + 1;
            }
        }
    } else if b == 123 {
        (Ok(Token::LBrace), i + 1)
    } else if b == 125 {
        (Ok(Token::RBrace), i + 1)
    } else if b == 91 {
        (Ok(Token::LBracket), i + 1)
    } else if b == 93 {
        (Ok(Token::RBracket), i + 1)
    } else if b == 44 {
        (Ok(Token::Comma), i + 1)
    } else if b == 58 {
        (Ok(Token::Colon), i + 1)
    } else if (48 <= b && b <= 57) || b == 45 {
        let mut k: usize = i;
        let mut out: Vec<u8> = Vec::new();
        while k < src.len() && ((48 <= src[k] && src[k] <= 57) || src[k] == 46 || src[k] == 101
            || src[k] == 69 || src[k] == 43 || src[k] == 45)
            invariant
                i <= k <= src@.len(),
                out@ == src@.subrange(i as int, k as int),
                num_end(src@, i as int) == num_end(src@, k as int),
            decreases src@.len() - k,
        {
            out.push(src[k]);
            k = k + 1;
            proof {
                assert(out@ =~= src@.subrange(i as int, k as int));
            }
        }
        assert(k as int == num_end(src@, i as int));
        let ghost e = k as int;
        let mut st = NumState::Start;
        let mut m: usize = i;
        while m < k
            invariant
                i <= m <= k <= src@.len(),
                num_run(src@, i as int, e, NumState::Start) == num_run(src@, m as int, e, st),
            decreases k - m,
        {
            st = num_step_on(st, src[m]);
            m = m + 1;
        }
        assert(num_run(src@, i as int, e, NumState::Start) == st);
        let good = match st {
            NumState::Zero => true,
            NumState::Int => true,
            NumState::Frac => true,
            NumState::Exp => true,
            _ => false,
        };
        if good {
            (Ok(Token::Num(out)), k)
        } else {
            (Err(JsonError::MalformedNumber), k)
        }
    } else if alnum_byte(b) {
        let mut k: usize = i;
        while k < src.len() && ((48 <= src[k] && src[k] <= 57) || (65 <= src[k] && src[k] <= 90)
            || (97 <= src[k] && src[k] <= 122))
            invariant
                i <= k <= src@.len(),
                ident_end(src@, i as int) == ident_end(src@, k as int),
            decreases src@.len() - k,
        {
            k = k + 1;
        }
        assert(k as int == ident_end(src@, i as int));
        let n = k - i;
        let ghost sub = src@.subrange(i as int, k as int);
        if n == 4 && src[i] == 116 && src[i + 1] == 114 && src[i + 2] == 117 && src[i + 3] == 101 {
            proof {
                assert(sub =~= word_true());
            }
            (Ok(Token::True), k)
        } else if n == 5 && src[i] == 102 && src[i + 1] == 97 && src[i + 2] == 108
            && src[i + 3] == 115 && src[i + 4] == 101 {
            proof {
                assert(sub =~= word_false());
            }
            (Ok(Token::False), k)
        } else if n == 4 && src[i] == 110 && src[i + 1] == 117 && src[i + 2] == 108
            && src[i + 3] == 108 {
            proof {
                assert(sub =~= word_null());
            }
            (Ok(Token::Null), k)
        } else {
            proof {
                assert(sub.len() == k - i);
                assert(forall|m: int| 0 <= m < sub.len() ==> sub[m] == src@[i + m]);
                assert(sub != word_true()) by {
                    if sub == word_true() {
                        assert(sub[0] == 116 && sub[1] == 114 && sub[2] == 117 && sub[3] == 101);
                    }
                }
                assert(sub != word_false()) by {
                    if sub == word_false() {
                        assert(sub[0] == 102 && sub[1] == 97 && sub[2] == 108 && sub[3] == 115
                            && sub[4] == 101);
                    }
                }
                assert(sub != word_null()) by {
                    if sub == word_null() {
                        assert(sub[0] == 110 && sub[1] == 117 && sub[2] == 108 && sub[3] == 108);
                    }
                }
            }
            (Ok(Token::Illegal), k)
        }
    } else {
        (Ok(Token::Illegal), i + 1)
    }
}

/// A token other than end-of-stream consumes at least one byte, and no
/// token reads past the end of the input.
pub proof fn lemma_token_at_bounds(s: Seq<u8>, i: int)
    requires
        0 <= i <= s.len(),
    ensures
        i <= token_at(s, i).1 <= s.len(),
        (token_at(s, i).0 matches Ok(t) && !(t is Eof)) ==> i < token_at(s, i).1,
        token_at(s, i).0 == Ok::<TokenModel, JsonError>(TokenModel::Eof) ==> token_at(s, i).1 == skip_ws(s, i),
{
    lemma_skip_ws_bounds(s, i);
    let j = skip_ws(s, i);
    if j < s.len() {
        let b = s[j];
        if b == 34 {
            lemma_scan_string_bounds(s, j + 1, Seq::empty());
        } else if is_digit(b) || b == 45 {
            lemma_num_end_bounds(s, j + 1);
            assert(num_end(s, j) == num_end(s, j + 1));
        } else if is_alnum(b) {
            lemma_ident_end_bounds(s, j + 1);
            assert(ident_end(s, j) == ident_end(s, j + 1));
        }
    }
}

/// End of input yields the end-of-stream token at the input's end, and
/// reading again from there yields it again: the end of the stream is
/// idempotent.
pub proof fn lemma_eof_idempotent(s: Seq<u8>, i: int)
    requires
        0 <= i <= s.len(),
        token_at(s, i).0 == Ok::<TokenModel, JsonError>(TokenModel::Eof),
    ensures
        token_at(s, token_at(s, i).1) == token_at(s, i),
{
    lemma_token_at_bounds(s, i);
    lemma_skip_ws_bounds(s, i);
}

} // verus!
