use vstd::prelude::*;
use vstd::string::{StringExecFns, StrSliceExecFns};

verus! {

/// A token of the surface language. A decimal literal is carried exactly,
/// as a numerator over a power-of-ten denominator.
#[derive(Debug, Clone, PartialEq, Eq)]
pub enum Token {
    Integer(i32),
    Decimal(i32, i32),
    Identifier(String),
    Plus,
    Minus,
    Star,
    Slash,
    Caret,
    Pipe,
    LeftParen,
    RightParen,
    LeftBrack,
    RightBrack,
}

/// The mathematical value of a token.
pub ghost enum Tok {
    Integer(int),
    Decimal(int, int),
    Identifier(Seq<char>),
    Plus,
    Minus,
    Star,
    Slash,
    Caret,
    Pipe,
    LeftParen,
    RightParen,
    LeftBrack,
    RightBrack,
}

impl View for Token {
    type V = Tok;

    open spec fn view(&self) -> Tok {
        match self {
            Token::Integer(n) => Tok::Integer(*n as int),
            Token::Decimal(n, d) => Tok::Decimal(*n as int, *d as int),
            Token::Identifier(s) => Tok::Identifier(s@),
            Token::Plus => Tok::Plus,
            Token::Minus => Tok::Minus,
            Token::Star => Tok::Star,
            Token::Slash => Tok::Slash,
            Token::Caret => Tok::Caret,
            Token::Pipe => Tok::Pipe,
            Token::LeftParen => Tok::LeftParen,
            Token::RightParen => Tok::RightParen,
            Token::LeftBrack => Tok::LeftBrack,
            Token::RightBrack => Tok::RightBrack,
        }
    }
}

/// The views of a token vector, in order.
pub open spec fn toks_of(s: Seq<Token>) -> Seq<Tok>
    decreases s,
{
    if s.len() == 0 {
        Seq::empty()
    } else {
        seq![s[0]@] + toks_of(s.subrange(1, s.len() as int))
    }
}

/// `toks_of` maps the view over the vector, element by element.
pub proof fn lemma_toks_of(s: Seq<Token>)
    ensures
        toks_of(s).len() == s.len(),
        forall|i: int| 0 <= i < s.len() ==> toks_of(s)[i] == s[i]@,
    decreases s.len(),
{
    if s.len() > 0 {
        lemma_toks_of(s.subrange(1, s.len() as int));
    }
}

/// A line that the lexer refuses, with the reason.
#[derive(Debug, PartialEq, Eq)]
pub enum LexError {
    /// A run of digits and dots that is not a valid number literal, or one
    /// whose exact value leaves the machine word.
    InvalidNumber(String),
    /// A character outside the surface language.
    InvalidCharacter(char),
}

/// The model of a lexing failure.
pub ghost enum LexFault {
    InvalidNumber(Seq<char>),
    InvalidCharacter(char),
}

impl View for LexError {
    type V = LexFault;

    open spec fn view(&self) -> LexFault {
        match self {
            LexError::InvalidNumber(s) => LexFault::InvalidNumber(s@),
            LexError::InvalidCharacter(c) => LexFault::InvalidCharacter(*c),
        }
    }
}

/// The message that describes a lexing error: the fixed text, with the
/// offending literal quoted.
pub open spec fn lex_error_text(e: LexFault) -> Seq<char> {
    match e {
        LexFault::InvalidNumber(text) => "invalid number syntax `"@ + text + "`"@,
        LexFault::InvalidCharacter(_) => "invalid character"@,
    }
}

impl LexError {
    /// The printable description of the error.
    pub fn message(&self) -> (s: String)
        ensures
            s@ == lex_error_text(self@),
    {
        match self {
            LexError::InvalidNumber(text) => {
                let mut s = "invalid number syntax `".to_owned();
                s.append(text.as_str());
                s.append("`");
                s
            },
            LexError::InvalidCharacter(_) => "invalid character".to_owned(),
        }
    }
}

/// Whether a character is a lowercase letter of the surface language.
pub open spec fn is_lower(c: char) -> bool {
    97 <= c as u32 <= 122
}

/// Whether a character is a decimal digit.
pub open spec fn is_digit(c: char) -> bool {
    48 <= c as u32 <= 57
}

/// Whether a character continues a number literal: a digit or the dot.
pub open spec fn is_numchar(c: char) -> bool {
    is_digit(c) || c as u32 == 46
}

/// Whether a character is separating whitespace.
pub open spec fn is_space(c: char) -> bool {
    c as u32 == 32 || c as u32 == 9 || c as u32 == 10 || c as u32 == 13
}

/// How many leading characters of a sequence are lowercase letters.
pub open spec fn lower_run(s: Seq<char>) -> int
    decreases s.len(),
{
    if s.len() > 0 && is_lower(s[0]) {
        1 + lower_run(s.subrange(1, s.len() as int))
    } else {
        0
    }
}

/// How many leading characters of a sequence continue a number literal.
pub open spec fn num_run(s: Seq<char>) -> int
    decreases s.len(),
{
    if s.len() > 0 && is_numchar(s[0]) {
        1 + num_run(s.subrange(1, s.len() as int))
    } else {
        0
    }
}

/// A run never leaves the sequence.
pub proof fn lemma_runs_bounded(s: Seq<char>)
    ensures
        0 <= lower_run(s) <= s.len(),
        0 <= num_run(s) <= s.len(),
    decreases s.len(),
{
    if s.len() > 0 {
        lemma_runs_bounded(s.subrange(1, s.len() as int));
    }
}

/// Digits folded into a value one at a time, failing at the first step that
/// leaves the machine word; the exact meaning of a number literal.
pub open spec fn digits_fold(ds: Seq<char>) -> Result<int, ()>
    decreases ds.len(),
{
    if ds.len() == 0 {
        Ok(0)
    } else {
        match digits_fold(ds.subrange(0, ds.len() - 1)) {
            Ok(v) => {
                let w = v * 10 + (ds[ds.len() - 1] as u32) - 48;
                if w <= i32::MAX as int {
                    Ok(w)
                } else {
                    Err(())
                }
            },
            Err(()) => Err(()),
        }
    }
}

/// Ten to a small power, for decimal denominators.
pub open spec fn ten_to(k: nat) -> int
    decreases k,
{
    if k == 0 {
        1
    } else {
        10 * ten_to((k - 1) as nat)
    }
}

/// How many of the leading characters are digits (no dot).
pub open spec fn digit_run(s: Seq<char>) -> int
    decreases s.len(),
{
    if s.len() > 0 && is_digit(s[0]) {
        1 + digit_run(s.subrange(1, s.len() as int))
    } else {
        0
    }
}

/// A digit run never leaves the sequence, and stops at the first non-digit.
pub proof fn lemma_digit_run(s: Seq<char>)
    ensures
        0 <= digit_run(s) <= s.len(),
        forall|i: int| 0 <= i < digit_run(s) ==> is_digit(#[trigger] s[i]),
        digit_run(s) < s.len() ==> !is_digit(s[digit_run(s)]),
    decreases s.len(),
{
    if s.len() > 0 && is_digit(s[0]) {
        let rest = s.subrange(1, s.len() as int);
        lemma_digit_run(rest);
        assert forall|i: int| 0 <= i < digit_run(s) implies is_digit(#[trigger] s[i]) by {
            if i > 0 {
                assert(rest[i - 1] == s[i]);
                assert(is_digit(rest[i - 1]));
            }
        }
    }
}

/// The meaning of a number literal: digits alone fold to an integer token; a
/// single dot splits the digits into a numerator and a power-of-ten
/// denominator; anything else, or a value off the machine word, is refused.
pub open spec fn parse_number(text: Seq<char>) -> Result<Tok, LexFault> {
    let head = digit_run(text);
    if head == text.len() {
        match digits_fold(text) {
            Ok(v) => Ok(Tok::Integer(v)),
            Err(()) => Err(LexFault::InvalidNumber(text)),
        }
    } else if text[head] as u32 == 46 {
        let frac = text.subrange(head + 1, text.len() as int);
        if digit_run(frac) == frac.len() && text.len() >= 2 && frac.len() <= 9 {
            match digits_fold(text.subrange(0, head) + frac) {
                Ok(v) => Ok(Tok::Decimal(v, ten_to(frac.len()))),
                Err(()) => Err(LexFault::InvalidNumber(text)),
            }
        } else {
            Err(LexFault::InvalidNumber(text))
        }
    } else {
        Err(LexFault::InvalidNumber(text))
    }
}

/// The token a single operator or grouping character stands for, if any.
pub open spec fn math_token(c: char) -> Result<Tok, LexFault> {
    if c as u32 == 43 {
        Ok(Tok::Plus)
    } else if c as u32 == 45 {
        Ok(Tok::Minus)
    } else if c as u32 == 42 {
        Ok(Tok::Star)
    } else if c as u32 == 47 {
        Ok(Tok::Slash)
    } else if c as u32 == 94 {
        Ok(Tok::Caret)
    } else if c as u32 == 124 {
        Ok(Tok::Pipe)
    } else if c as u32 == 40 {
        Ok(Tok::LeftParen)
    } else if c as u32 == 41 {
        Ok(Tok::RightParen)
    } else if c as u32 == 91 {
        Ok(Tok::LeftBrack)
    } else if c as u32 == 93 {
        Ok(Tok::RightBrack)
    } else {
        Err(LexFault::InvalidCharacter(c))
    }
}

/// The lexer itself: whitespace separates; a lowercase run is an identifier;
/// a run of digits and dots is a number literal; single characters are
/// operators or grouping; anything else is refused.
pub open spec fn lex(s: Seq<char>) -> Result<Seq<Tok>, LexFault>
    decreases s.len(),
    via lex_decreases
{
    if s.len() == 0 {
        Ok(Seq::empty())
    } else if is_space(s[0]) {
        lex(s.subrange(1, s.len() as int))
    } else if is_lower(s[0]) {
        let n = lower_run(s);
        match lex(s.subrange(n, s.len() as int)) {
            Ok(rest) => Ok(seq![Tok::Identifier(s.subrange(0, n))] + rest),
            Err(e) => Err(e),
        }
    } else if is_numchar(s[0]) {
        let n = num_run(s);
        match parse_number(s.subrange(0, n)) {
            Ok(t) => match lex(s.subrange(n, s.len() as int)) {
                Ok(rest) => Ok(seq![t] + rest),
                Err(e) => Err(e),
            },
            Err(e) => Err(e),
        }
    } else {
        match math_token(s[0]) {
            Ok(t) => match lex(s.subrange(1, s.len() as int)) {
                Ok(rest) => Ok(seq![t] + rest),
                Err(e) => Err(e),
            },
            Err(e) => Err(e),
        }
    }
}

#[via_fn]
proof fn lex_decreases(s: Seq<char>) {
    lemma_runs_bounded(s);
    if s.len() > 0 {
        lemma_runs_bounded(s.subrange(1, s.len() as int));
    }
}

/// The lexer over a line of input. It holds the whole line; tokens are
/// produced in one pass.
#[derive(Debug)]
pub struct Lexer {
    pub text: String,
}

impl View for Lexer {
    type V = Seq<char>;

    open spec fn view(&self) -> Seq<char> {
        self.text@
    }
}

impl Lexer {
    /// Wraps a line of input.
    pub fn new(text: String) -> (r: Lexer)
        ensures
            r@ == text@,
    {
        Lexer { text }
    }

    /// Runs the lexer over the whole line, exactly as `lex` states it.
    pub fn tokens(self) -> (r: Result<Vec<Token>, LexError>)
        ensures
            match r {
                Ok(out) => lex(self@) == Ok::<Seq<Tok>, LexFault>(toks_of(out@)),
                Err(e) => lex(self@) == Err::<Seq<Tok>, LexFault>(e@),
            },
    {
        let n = self.text.as_str().unicode_len();
        proof {
            assert(self@.skip(0) =~= self@);
        }
        lex_from(&self.text, 0, n)
    }
}

/// Once a digit fold fails, folding any extension fails too.
proof fn lemma_digits_fold_err(ds: Seq<char>, i: int)
    requires
        0 <= i <= ds.len(),
        digits_fold(ds.subrange(0, i)) is Err,
    ensures
        digits_fold(ds) is Err,
    decreases ds.len() - i,
{
    if i < ds.len() {
        assert(ds.subrange(0, i + 1).subrange(0, i) =~= ds.subrange(0, i));
        lemma_digits_fold_err(ds, i + 1);
    } else {
        assert(ds.subrange(0, i) =~= ds);
    }
}

/// Scans forward from a position while a character class holds; the class is
/// chosen by a flag: lowercase letters, digits-and-dot, or digits alone.
fn scan_while(text: &String, pos: usize, stop: usize, class: u8) -> (end: usize)
    requires
        pos <= stop <= text@.len(),
    ensures
        pos <= end <= stop,
        class == 0 ==> end - pos == lower_run(text@.subrange(pos as int, stop as int)),
        class == 1 ==> end - pos == num_run(text@.subrange(pos as int, stop as int)),
        class == 2 ==> end - pos == digit_run(text@.subrange(pos as int, stop as int)),
    decreases stop - pos,
{
    let ghost window = text@.subrange(pos as int, stop as int);
    if pos == stop {
        proof {
            assert(window.len() == 0);
        }
        return pos;
    }
    let c = text.as_str().get_char(pos);
    let cu = c as u32;
    let hit: bool = if class == 0 {
        97 <= cu && cu <= 122
    } else if class == 1 {
        (48 <= cu && cu <= 57) || cu == 46
    } else {
        48 <= cu && cu <= 57
    };
    proof {
        assert(window[0] == text@[pos as int]);
    }
    if hit {
        let end = scan_while(text, pos + 1, stop, class);
        proof {
            assert(window.subrange(1, window.len() as int) =~= text@.subrange(
                pos as int + 1,
                stop as int,
            ));
        }
        end
    } else {
        pos
    }
}

/// Folds the digits of a window onto an accumulator, exactly as
/// `digits_fold` states it over the assembled digit sequence.
fn fold_digits(
    text: &String,
    from: usize,
    to: usize,
    acc: i32,
    Ghost(cat): Ghost<Seq<char>>,
    Ghost(k0): Ghost<int>,
) -> (r: Option<i32>)
    requires
        from <= to <= text@.len(),
        0 <= k0,
        k0 + (to - from) <= cat.len(),
        digits_fold(cat.subrange(0, k0)) == Ok::<int, ()>(acc as int),
        0 <= acc,
        forall|j: int| k0 <= j < k0 + (to - from) ==> #[trigger] cat[j] == text@[from + (j
            - k0)],
        forall|j: int| k0 <= j < k0 + (to - from) ==> is_digit(#[trigger] cat[j]),
    ensures
        match r {
            Some(v) => digits_fold(cat.subrange(0, k0 + (to - from))) == Ok::<int, ()>(v as int)
                && v >= 0,
            None => digits_fold(cat.subrange(0, k0 + (to - from))) is Err,
        },
    decreases to - from,
{
    if from == to {
        return Some(acc);
    }
    let c = text.as_str().get_char(from);
    let cu = c as u32;
    proof {
        assert(cat[k0] == text@[from as int]);
        assert(is_digit(cat[k0]));
    }
    let d: i32 = (cu - 48) as i32;
    let next: i64 = (acc as i64) * 10 + (d as i64);
    proof {
        assert(cat.subrange(0, k0 + 1).subrange(0, k0) =~= cat.subrange(0, k0));
        assert(cat.subrange(0, k0 + 1)[k0] == cat[k0]);
    }
    if next > i32::MAX as i64 {
        proof {
            assert(cat.subrange(0, k0 + (to - from)).subrange(0, k0 + 1) =~= cat.subrange(
                0,
                k0 + 1,
            ));
            lemma_digits_fold_err(cat.subrange(0, k0 + (to - from)), k0 + 1);
        }
        return None;
    }
    fold_digits(text, from + 1, to, next as i32, Ghost(cat), Ghost(k0 + 1))
}

/// The token one operator or grouping character stands for, exactly as
/// `math_token` states it.
fn math_token_exec(c: char) -> (r: Result<Token, LexError>)
    ensures
        match r {
            Ok(t) => math_token(c) == Ok::<Tok, LexFault>(t@),
            Err(e) => math_token(c) == Err::<Tok, LexFault>(e@),
        },
{
    let cu = c as u32;
    if cu == 43 {
        Ok(Token::Plus)
    } else if cu == 45 {
        Ok(Token::Minus)
    } else if cu == 42 {
        Ok(Token::Star)
    } else if cu == 47 {
        Ok(Token::Slash)
    } else if cu == 94 {
        Ok(Token::Caret)
    } else if cu == 124 {
        Ok(Token::Pipe)
    } else if cu == 40 {
        Ok(Token::LeftParen)
    } else if cu == 41 {
        Ok(Token::RightParen)
    } else if cu == 91 {
        Ok(Token::LeftBrack)
    } else if cu == 93 {
        Ok(Token::RightBrack)
    } else {
        Err(LexError::InvalidCharacter(c))
    }
}

/// Parses one number literal window, exactly as `parse_number` states it.
fn parse_number_exec(text: &String, pos: usize, end: usize) -> (r: Result<Token, LexError>)
    requires
        pos < end <= text@.len(),
        forall|j: int| pos <= j < end ==> is_numchar(#[trigger] text@[j]),
    ensures
        match r {
            Ok(t) => parse_number(text@.subrange(pos as int, end as int)) == Ok::<Tok, LexFault>(
                t@,
            ),
            Err(e) => parse_number(text@.subrange(pos as int, end as int)) == Err::<
                Tok,
                LexFault,
            >(e@),
        },
{
    let ghost sub = text@.subrange(pos as int, end as int);
    proof {
        lemma_digit_run(sub);
        assert(forall|j: int| 0 <= j < sub.len() ==> sub[j] == #[trigger] text@[pos + j]);
    }
    let dend = scan_while(text, pos, end, 2);
    proof {
        assert(dend - pos == digit_run(sub));
    }
    if dend == end {
        // digits only: an integer literal
        proof {
            assert(sub.subrange(0, 0) =~= Seq::<char>::empty());
            assert(sub.subrange(0, sub.len() as int) =~= sub);
        }
        match fold_digits(text, pos, end, 0, Ghost(sub), Ghost(0)) {
            Some(v) => Ok(Token::Integer(v)),
            None => Err(LexError::InvalidNumber(
                text.as_str().substring_char(pos, end).to_owned(),
            )),
        }
    } else {
        // a dot: the window must be digits, one dot, then digits
        let ghost head = digit_run(sub);
        proof {
            assert(sub[head] == text@[pos + head]);
            assert(is_numchar(sub[head]) && !is_digit(sub[head]));
            assert(sub[head] as u32 == 46);
        }
        let ghost frac = sub.subrange(head + 1, sub.len() as int);
        let fstart = dend + 1;
        if fstart > end {
            proof {
                assert(false);
            }
            return Err(LexError::InvalidNumber(
                text.as_str().substring_char(pos, end).to_owned(),
            ));
        }
        let fend = scan_while(text, fstart, end, 2);
        proof {
            assert(frac =~= text@.subrange(fstart as int, end as int));
            assert(fend - fstart == digit_run(frac));
        }
        let whole_ok = fend == end;
        let long_enough = end - pos >= 2;
        let short_frac = end - fstart <= 9;
        if whole_ok && long_enough && short_frac {
            let ghost cat = sub.subrange(0, head) + frac;
            proof {
                assert(cat.subrange(0, 0) =~= Seq::<char>::empty());
                assert(forall|j: int| 0 <= j < dend - pos ==> #[trigger] cat[j] == text@[pos
                    + j]);
                assert(forall|j: int| 0 <= j < head ==> is_digit(#[trigger] cat[j]));
                assert(forall|j: int| head <= j < cat.len() ==> #[trigger] cat[j] == frac[j
                    - head]);
                lemma_digit_run(frac);
                assert(forall|j: int| head <= j < cat.len() ==> is_digit(#[trigger] cat[j]));
            }
            match fold_digits(text, pos, dend, 0, Ghost(cat), Ghost(0)) {
                None => {
                    proof {
                        lemma_digits_fold_err(cat, head);
                        assert(cat.subrange(0, head) =~= cat.subrange(0, 0 + (dend - pos)));
                    }
                    Err(LexError::InvalidNumber(
                        text.as_str().substring_char(pos, end).to_owned(),
                    ))
                },
                Some(acc) => {
                    proof {
                        assert(forall|j: int| 0 <= j < end - fstart ==> #[trigger] cat[head + j]
                            == text@[fstart + j]);
                    }
                    match fold_digits(text, fstart, end, acc, Ghost(cat), Ghost(head)) {
                        None => {
                            proof {
                                assert(cat.subrange(0, head + (end - fstart)) =~= cat);
                            }
                            Err(LexError::InvalidNumber(
                                text.as_str().substring_char(pos, end).to_owned(),
                            ))
                        },
                        Some(v) => {
                            proof {
                                assert(cat.subrange(0, head + (end - fstart)) =~= cat);
                            }
                            let den = power_of_ten(end - fstart);
                            Ok(Token::Decimal(v, den))
                        },
                    }
                },
            }
        } else {
            Err(LexError::InvalidNumber(
                text.as_str().substring_char(pos, end).to_owned(),
            ))
        }
    }
}

/// Ten to a small power, exactly as `ten_to` states it.
fn power_of_ten(k: usize) -> (r: i32)
    requires
        k <= 9,
    ensures
        r as int == ten_to(k as nat),
        r >= 1,
{
    let mut r: i32 = 1;
    let mut i: usize = 0;
    while i < k
        invariant
            i <= k <= 9,
            1 <= r,
            r as int == ten_to(i as nat),
        decreases k - i,
    {
        proof {
            lemma_ten_to_bound(i as nat);
        }
        r = r * 10;
        i += 1;
    }
    proof {
        lemma_ten_to_bound(k as nat);
    }
    r
}

/// Small powers of ten stay within the machine word.
proof fn lemma_ten_to_bound(k: nat)
    requires
        k <= 9,
    ensures
        1 <= ten_to(k) <= 1_000_000_000,
        k <= 8 ==> ten_to(k) <= 100_000_000,
{
    assert(ten_to(0) == 1);
    assert(ten_to(1) == 10);
    assert(ten_to(2) == 100);
    assert(ten_to(3) == 1000);
    assert(ten_to(4) == 10000);
    assert(ten_to(5) == 100000);
    assert(ten_to(6) == 1000000);
    assert(ten_to(7) == 10000000);
    assert(ten_to(8) == 100000000);
    assert(ten_to(9) == 1000000000);
}

/// Lexes the line from a position onward, exactly as `lex` states it over
/// the remaining characters.
fn lex_from(text: &String, pos: usize, n: usize) -> (r: Result<Vec<Token>, LexError>)
    requires
        pos <= n,
        n == text@.len(),
    ensures
        match r {
            Ok(out) => lex(text@.skip(pos as int)) == Ok::<Seq<Tok>, LexFault>(toks_of(out@)),
            Err(e) => lex(text@.skip(pos as int)) == Err::<Seq<Tok>, LexFault>(e@),
        },
    decreases n - pos,
{
    let ghost s = text@.skip(pos as int);
    if pos == n {
        let out: Vec<Token> = Vec::new();
        proof {
            assert(toks_of(out@) =~= Seq::<Tok>::empty());
        }
        return Ok(out);
    }
    let c = text.as_str().get_char(pos);
    let cu = c as u32;
    proof {
        assert(s[0] == text@[pos as int]);
    }
    if cu == 32 || cu == 9 || cu == 10 || cu == 13 {
        proof {
            assert(s.subrange(1, s.len() as int) =~= text@.skip(pos as int + 1));
        }
        lex_from(text, pos + 1, n)
    } else if 97 <= cu && cu <= 122 {
        proof {
            assert(s =~= text@.subrange(pos as int, n as int));
            lemma_runs_bounded(s);
        }
        let end = scan_while(text, pos, n, 0);
        proof {
            assert(end - pos == lower_run(s));
            lemma_runs_bounded(s.subrange(1, s.len() as int));
            assert(lower_run(s) == 1 + lower_run(s.subrange(1, s.len() as int)));
            assert(lower_run(s) >= 1);
        }
        let word = text.as_str().substring_char(pos, end).to_owned();
        proof {
            assert(word@ =~= s.subrange(0, lower_run(s)));
            assert(s.subrange(end - pos, s.len() as int) =~= text@.skip(end as int));
        }
        match lex_from(text, end, n) {
            Ok(rest) => Ok(cons_token(Token::Identifier(word), rest)),
            Err(e) => Err(e),
        }
    } else if (48 <= cu && cu <= 57) || cu == 46 {
        proof {
            assert(s =~= text@.subrange(pos as int, n as int));
            lemma_runs_bounded(s);
        }
        let end = scan_while(text, pos, n, 1);
        proof {
            assert(end - pos == num_run(s));
            lemma_runs_bounded(s.subrange(1, s.len() as int));
            assert(num_run(s) == 1 + num_run(s.subrange(1, s.len() as int)));
            assert(num_run(s) >= 1);
            assert(s.subrange(0, num_run(s)) =~= text@.subrange(pos as int, end as int));
            lemma_num_run_chars(s);
            assert forall|j: int| pos <= j < end implies is_numchar(#[trigger] text@[j]) by {
                assert(s[j - pos] == text@[j]);
                assert(is_numchar(s[j - pos]));
            }
        }
        match parse_number_exec(text, pos, end) {
            Ok(t) => {
                proof {
                    assert(s.subrange(end - pos, s.len() as int) =~= text@.skip(end as int));
                }
                match lex_from(text, end, n) {
                    Ok(rest) => Ok(cons_token(t, rest)),
                    Err(e) => Err(e),
                }
            },
            Err(e) => Err(e),
        }
    } else {
        match math_token_exec(c) {
            Ok(t) => {
                proof {
                    assert(s.subrange(1, s.len() as int) =~= text@.skip(pos as int + 1));
                }
                match lex_from(text, pos + 1, n) {
                    Ok(rest) => Ok(cons_token(t, rest)),
                    Err(e) => Err(e),
                }
            },
            Err(e) => Err(e),
        }
    }
}

/// Every character of the leading number run continues a number literal.
proof fn lemma_num_run_chars(s: Seq<char>)
    ensures
        forall|i: int| 0 <= i < num_run(s) ==> is_numchar(#[trigger] s[i]),
    decreases s.len(),
{
    if s.len() > 0 && is_numchar(s[0]) {
        let rest = s.subrange(1, s.len() as int);
        lemma_num_run_chars(rest);
        lemma_runs_bounded(rest);
        assert forall|i: int| 0 <= i < num_run(s) implies is_numchar(#[trigger] s[i]) by {
            if i > 0 {
                assert(rest[i - 1] == s[i]);
                assert(is_numchar(rest[i - 1]));
            }
        }
    }
}

/// Puts one token in front of the rest.
fn cons_token(t: Token, rest: Vec<Token>) -> (r: Vec<Token>)
    ensures
        toks_of(r@) == seq![t@] + toks_of(rest@),
{
    let ghost pre = rest@;
    let ghost tv = t@;
    let mut rest = rest;
    rest.insert(0, t);
    proof {
        lemma_toks_of(pre);
        lemma_toks_of(rest@);
        assert(toks_of(rest@) =~= seq![tv] + toks_of(pre));
    }
    rest
}

} // verus!
