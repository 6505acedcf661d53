use vstd::prelude::*;

verus! {

/// A lexical unit of a calculator line.
#[derive(Debug, Clone, Copy, PartialEq, Eq, Structural)]
pub enum Token {
    Num(i32),
    Plus,
}

/// What went wrong while scanning.
#[derive(Debug, Clone, Copy, PartialEq, Eq, Structural)]
pub enum LexErrorKind {
    /// A character that is neither a digit, `+` nor a space starts a token
    /// (a number may not start with `0` either).
    InvalidToken(char),
    /// A run of digits denotes a value above `i32::MAX`.
    NumberTooLarge,
}

/// The error of a failed scan.
#[derive(Debug, Clone, Copy, PartialEq, Eq, Structural)]
pub struct LexError {
    pub kind: LexErrorKind,
}

pub open spec fn is_digit(c: char) -> bool {
    '0' <= c && c <= '9'
}

/// A character that may start a number.
pub open spec fn is_leading_digit(c: char) -> bool {
    '1' <= c && c <= '9'
}

pub open spec fn digit_value(c: char) -> nat {
    (c as int - '0' as int) as nat
}

/// Length of the run of digits at the front of `s`.
pub open spec fn digit_run(s: Seq<char>) -> nat
    decreases s.len(),
{
    if s.len() > 0 && is_digit(s[0]) {
        1 + digit_run(s.drop_first())
    } else {
        0
    }
}

/// The decimal value of a sequence of digits.
pub open spec fn decimal_value(d: Seq<char>) -> nat
    decreases d.len(),
{
    if d.len() == 0 {
        0
    } else {
        decimal_value(d.drop_last()) * 10 + digit_value(d.last())
    }
}

pub proof fn lemma_digit_run_bounds(s: Seq<char>)
    ensures
        digit_run(s) <= s.len(),
        forall|j: int| 0 <= j < digit_run(s) ==> is_digit(#[trigger] s[j]),
        digit_run(s) < s.len() ==> !is_digit(s[digit_run(s) as int]),
    decreases s.len(),
{
    if s.len() > 0 && is_digit(s[0]) {
        lemma_digit_run_bounds(s.drop_first());
        assert forall|j: int| 0 <= j < digit_run(s) implies is_digit(#[trigger] s[j]) by {
            if j > 0 {
                assert(s[j] == s.drop_first()[j - 1]);
            }
        }
    }
}

pub proof fn lemma_digit_run_exact(s: Seq<char>, k: int)
    requires
        0 <= k <= s.len(),
        forall|j: int| 0 <= j < k ==> is_digit(#[trigger] s[j]),
        k == s.len() || !is_digit(s[k]),
    ensures
        digit_run(s) == k,
    decreases k,
{
    if k > 0 {
        let r = s.drop_first();
        assert forall|j: int| 0 <= j < k - 1 implies is_digit(#[trigger] r[j]) by {
            assert(r[j] == s[j + 1]);
        }
        if k < s.len() {
            assert(r[k - 1] == s[k]);
        }
        lemma_digit_run_exact(r, k - 1);
    }
}

pub proof fn lemma_digit_run_exact_bound(s: Seq<char>, k: int)
    requires
        0 <= k <= s.len(),
        forall|j: int| 0 <= j < k ==> is_digit(#[trigger] s[j]),
    ensures
        k <= digit_run(s),
    decreases k,
{
    if k > 0 {
        let r = s.drop_first();
        assert forall|j: int| 0 <= j < k - 1 implies is_digit(#[trigger] r[j]) by {
            assert(r[j] == s[j + 1]);
        }
        lemma_digit_run_exact_bound(r, k - 1);
    }
}

pub proof fn lemma_decimal_value_push(s: Seq<char>, k: int)
    requires
        0 <= k < s.len(),
    ensures
        decimal_value(s.take(k + 1)) == decimal_value(s.take(k)) * 10 + digit_value(s[k]),
{
    assert(s.take(k + 1).drop_last() =~= s.take(k));
}

/// A longer run of digits never has a smaller value.
pub proof fn lemma_decimal_value_prefix(d: Seq<char>, k: int)
    requires
        0 <= k <= d.len(),
    ensures
        decimal_value(d.take(k)) <= decimal_value(d),
    decreases d.len(),
{
    if k < d.len() {
        let p = d.drop_last();
        assert(p.take(k) =~= d.take(k));
        lemma_decimal_value_prefix(p, k);
        assert(d.take(d.len() as int) =~= d);
    } else {
        assert(d.take(k) =~= d);
    }
}

/// The first token of `s` and what follows it, skipping the spaces before it;
/// `None` when only spaces are left.
pub open spec fn first_token(s: Seq<char>) -> Result<Option<(Token, Seq<char>)>, LexError>
    decreases s.len(),
{
    if s.len() == 0 {
        Ok(None)
    } else if s[0] == ' ' {
        first_token(s.drop_first())
    } else if s[0] == '+' {
        Ok(Some((Token::Plus, s.drop_first())))
    } else if is_leading_digit(s[0]) {
        let n = digit_run(s);
        let v = decimal_value(s.take(n as int));
        if v > i32::MAX {
            Err(LexError { kind: LexErrorKind::NumberTooLarge })
        } else {
            Ok(Some((Token::Num(v as i32), s.skip(n as int))))
        }
    } else {
        Err(LexError { kind: LexErrorKind::InvalidToken(s[0]) })
    }
}

pub proof fn lemma_first_token_shrinks(s: Seq<char>)
    ensures
        first_token(s) matches Ok(Some((_, rest))) ==> rest.len() < s.len(),
    decreases s.len(),
{
    if s.len() > 0 {
        if s[0] == ' ' {
            lemma_first_token_shrinks(s.drop_first());
        } else {
            lemma_digit_run_bounds(s);
        }
    }
}

/// Puts `t` in front of the tokens of a successful scan; an error stays as it is.
pub open spec fn prepend(t: Seq<Token>, r: Result<Seq<Token>, LexError>) -> Result<Seq<Token>, LexError> {
    match r {
        Ok(ts) => Ok(t + ts),
        Err(e) => Err(e),
    }
}

/// The tokens of a whole line, or the first error met scanning it from the left.
pub open spec fn lex(s: Seq<char>) -> Result<Seq<Token>, LexError>
    decreases s.len(),
    via lex_decreases
{
    match first_token(s) {
        Err(e) => Err(e),
        Ok(None) => Ok(Seq::empty()),
        Ok(Some((t, rest))) => prepend(seq![t], lex(rest)),
    }
}

#[via_fn]
proof fn lex_decreases(s: Seq<char>) {
    lemma_first_token_shrinks(s);
}

/// The outcome of a scan as a sequence of tokens.
pub open spec fn scanned(r: Result<Vec<Token>, LexError>) -> Result<Seq<Token>, LexError> {
    match r {
        Ok(v) => Ok(v@),
        Err(e) => Err(e),
    }
}

/// A scanner over one line, with room to push back one character.
pub struct Lexer {
    chars: Vec<char>,
    pos: usize,
    lookahead: Option<char>,
}

impl Lexer {
    pub closed spec fn wf(&self) -> bool {
        self.pos <= self.chars.len()
    }

    /// The characters not yet scanned, the pushed-back one first.
    pub closed spec fn pending(&self) -> Seq<char> {
        match self.lookahead {
            Some(c) => seq![c] + self.chars@.skip(self.pos as int),
            None => self.chars@.skip(self.pos as int),
        }
    }

    pub fn new(input: &str) -> (r: Lexer)
        ensures
            r.wf(),
            r.pending() == input@,
    {
        let mut chars: Vec<char> = Vec::new();
        for c in it: input.chars()
            invariant
                chars@ == it.seq().take(it.index() as int),
        {
            chars.push(c);
        }
        Lexer { chars, pos: 0, lookahead: None }
    }

    /// Takes the next character, the pushed-back one first.
    fn next_char(&mut self) -> (r: Option<char>)
        requires
            old(self).wf(),
        ensures
            final(self).wf(),
            final(self).lookahead is None,
            old(self).pending().len() == 0 ==> r is None && final(self).pending() == old(self).pending(),
            old(self).pending().len() > 0 ==> r == Some(old(self).pending()[0])
                && final(self).pending() == old(self).pending().drop_first(),
    {
        proof {
            if let Some(c) = self.lookahead {
                assert((seq![c] + self.chars@.skip(self.pos as int)).drop_first()
                    =~= self.chars@.skip(self.pos as int));
            }
        }
        if let Some(c) = self.lookahead {
            self.lookahead = None;
            Some(c)
        } else if self.pos < self.chars.len() {
            let c = self.chars[self.pos];
            proof {
                assert(self.chars@.skip(self.pos as int).drop_first()
                    =~= self.chars@.skip(self.pos + 1));
            }
            self.pos = self.pos + 1;
            Some(c)
        } else {
            None
        }
    }

    /// Scans the next token, skipping the spaces before it; `None` at the
    /// end of the line.
    fn next_token(&mut self) -> (r: Result<Option<Token>, LexError>)
        requires
            old(self).wf(),
        ensures
            final(self).wf(),
            match first_token(old(self).pending()) {
                Err(e) => r == Err::<Option<Token>, LexError>(e),
                Ok(None) => r == Ok::<Option<Token>, LexError>(None),
                Ok(Some((t, rest))) => r == Ok::<Option<Token>, LexError>(Some(t))
                    && final(self).pending() == rest,
            },
    {
        loop
            invariant
                self.wf(),
                first_token(self.pending()) == first_token(old(self).pending()),
            decreases self.pending().len(),
        {
            let ghost s = self.pending();
            let c = match self.next_char() {
                None => {
                    return Ok(None);
                },
                Some(c) => c,
            };
            if c == '+' {
                return Ok(Some(Token::Plus));
            } else if '1' <= c && c <= '9' {
                let mut number: i32 = (c as u32 - '0' as u32) as i32;
                let ghost mut k: int = 1;
                proof {
                    assert(s.take(1).drop_last() =~= s.take(0));
                    assert(decimal_value(s.take(0)) == 0);
                    assert(decimal_value(s.take(1)) == digit_value(s[0]));
                    assert(s.skip(1) =~= s.drop_first());
                }
                loop
                    invariant_except_break
                        self.lookahead is None,
                    invariant
                        self.wf(),
                        is_leading_digit(s[0]),
                        first_token(s) == first_token(old(self).pending()),
                        1 <= k <= s.len(),
                        self.pending() == s.skip(k),
                        forall|j: int| 0 <= j < k ==> is_digit(#[trigger] s[j]),
                        number == decimal_value(s.take(k)),
                    ensures
                        digit_run(s) == k,
                    decreases self.chars.len() - self.pos,
                {
                    assert(self.pending() == self.chars@.skip(self.pos as int));
                    assert(s.skip(k).len() == self.chars.len() - self.pos);
                    if self.pos < self.chars.len() {
                        let d = self.chars[self.pos];
                        assert(s.skip(k)[0] == s[k]);
                        if '0' <= d && d <= '9' {
                            let wide: i64 = number as i64 * 10 + (d as u32 - '0' as u32) as i64;
                            proof {
                                lemma_decimal_value_push(s, k);
                            }
                            if wide > i32::MAX as i64 {
                                proof {
                                    lemma_digit_run_bounds(s);
                                    lemma_digit_run_exact_bound(s, k + 1);
                                    let n = digit_run(s) as int;
                                    assert(s.take(n).take(k + 1) =~= s.take(k + 1));
                                    lemma_decimal_value_prefix(s.take(n), k + 1);
                                }
                                return Err(LexError { kind: LexErrorKind::NumberTooLarge });
                            }
                            number = wide as i32;
                            proof {
                                assert(self.chars@.skip(self.pos + 1)
                                    =~= self.chars@.skip(self.pos as int).drop_first());
                                assert(s.skip(k + 1) =~= s.skip(k).drop_first());
                                k = k + 1;
                            }
                            self.pos = self.pos + 1;
                        } else {
                            proof {
                                lemma_digit_run_exact(s, k);
                                assert(seq![d] + self.chars@.skip(self.pos + 1)
                                    =~= self.chars@.skip(self.pos as int));
                            }
                            self.pos = self.pos + 1;
                            self.lookahead = Some(d);
                            break;
                        }
                    } else {
                        proof {
                            lemma_digit_run_exact(s, k);
                        }
                        break;
                    }
                }
                return Ok(Some(Token::Num(number)));
            } else if c != ' ' {
                return Err(LexError { kind: LexErrorKind::InvalidToken(c) });
            }
        }
    }

    /// Scans the whole line: all its tokens in order, or the first error.
    pub fn tokenize(&mut self) -> (r: Result<Vec<Token>, LexError>)
        requires
            old(self).wf(),
        ensures
            final(self).wf(),
            scanned(r) == lex(old(self).pending()),
    {
        let mut tokens: Vec<Token> = Vec::new();
        loop
            invariant_except_break
                lex(old(self).pending()) == prepend(tokens@, lex(self.pending())),
            invariant
                self.wf(),
            ensures
                lex(old(self).pending()) == Ok::<Seq<Token>, LexError>(tokens@),
            decreases self.pending().len(),
        {
            let ghost s = self.pending();
            let ghost before = tokens@;
            match self.next_token() {
                Ok(Some(t)) => {
                    proof {
                        lemma_first_token_shrinks(s);
                        if let Ok(ts) = lex(self.pending()) {
                            assert(before + (seq![t] + ts) =~= before.push(t) + ts);
                        }
                    }
                    tokens.push(t);
                },
                Ok(None) => {
                    assert(lex(s) == Ok::<Seq<Token>, LexError>(Seq::empty()));
                    assert(tokens@ + Seq::<Token>::empty() =~= tokens@);
                    break;
                },
                Err(e) => {
                    return Err(e);
                },
            }
        }
        Ok(tokens)
    }
}

/// A character that the scanner accepts somewhere in a line.
pub open spec fn is_accepted(c: char) -> bool {
    is_digit(c) || c == '+' || c == ' '
}

/// A line of spaces alone, the empty line included, has no tokens.
pub proof fn lemma_spaces_only(s: Seq<char>)
    requires
        forall|i: int| 0 <= i < s.len() ==> #[trigger] s[i] == ' ',
    ensures
        lex(s) == Ok::<Seq<Token>, LexError>(Seq::empty()),
{
    lemma_first_token_spaces(s);
}

proof fn lemma_first_token_spaces(s: Seq<char>)
    requires
        forall|i: int| 0 <= i < s.len() ==> #[trigger] s[i] == ' ',
    ensures
        first_token(s) == Ok::<Option<(Token, Seq<char>)>, LexError>(None),
    decreases s.len(),
{
    if s.len() > 0 {
        let r = s.drop_first();
        assert forall|i: int| 0 <= i < r.len() implies #[trigger] r[i] == ' ' by {
            assert(r[i] == s[i + 1]);
        }
        lemma_first_token_spaces(r);
    }
}

/// A line made of one run of digits that does not start with `0` is one
/// number token with the run's value, as long as that value fits an `i32`;
/// beyond that the scan fails as too large.
pub proof fn lemma_single_number(s: Seq<char>)
    requires
        s.len() > 0,
        is_leading_digit(s[0]),
        forall|i: int| 0 <= i < s.len() ==> is_digit(#[trigger] s[i]),
    ensures
        decimal_value(s) <= i32::MAX ==> lex(s) == Ok::<Seq<Token>, LexError>(
            seq![Token::Num(decimal_value(s) as i32)],
        ),
        decimal_value(s) > i32::MAX ==> lex(s) == Err::<Seq<Token>, LexError>(
            LexError { kind: LexErrorKind::NumberTooLarge },
        ),
{
    lemma_digit_run_exact(s, s.len() as int);
    assert(s.take(s.len() as int) =~= s);
    let rest = s.skip(s.len() as int);
    assert(rest =~= Seq::<char>::empty());
    lemma_spaces_only(rest);
    assert(seq![Token::Num(decimal_value(s) as i32)] + Seq::<Token>::empty()
        =~= seq![Token::Num(decimal_value(s) as i32)]);
}

/// Scanning depends on the line alone: any two scanners made for the same
/// line give the same outcome.
pub proof fn lemma_scan_is_deterministic(line: Seq<char>, a: Lexer, b: Lexer)
    requires
        a.pending() == line,
        b.pending() == line,
    ensures
        lex(a.pending()) == lex(line),
        lex(b.pending()) == lex(line),
        lex(a.pending()) == lex(b.pending()),
{
}

/// A character that is neither a digit, `+` nor a space right after a
/// number stops the scan with an error that names it.
pub proof fn lemma_invalid_after_number(d: Seq<char>, c: char, rest: Seq<char>)
    requires
        d.len() > 0,
        is_leading_digit(d[0]),
        forall|i: int| 0 <= i < d.len() ==> is_digit(#[trigger] d[i]),
        decimal_value(d) <= i32::MAX,
        !is_accepted(c),
    ensures
        lex(d + seq![c] + rest) == Err::<Seq<Token>, LexError>(
            LexError { kind: LexErrorKind::InvalidToken(c) },
        ),
{
    let s = d + seq![c] + rest;
    let n = d.len() as int;
    assert(s[n] == c);
    assert forall|j: int| 0 <= j < n implies is_digit(#[trigger] s[j]) by {
        assert(s[j] == d[j]);
    }
    lemma_digit_run_exact(s, n);
    assert(s.take(n) =~= d);
    let tail = s.skip(n);
    assert(tail[0] == c);
    assert(first_token(tail) == Err::<Option<(Token, Seq<char>)>, LexError>(
        LexError { kind: LexErrorKind::InvalidToken(c) },
    ));
    assert(lex(tail) == Err::<Seq<Token>, LexError>(LexError { kind: LexErrorKind::InvalidToken(c) }));
    assert(first_token(s) == Ok::<Option<(Token, Seq<char>)>, LexError>(
        Some((Token::Num(decimal_value(d) as i32), tail)),
    ));
}

proof fn lemma_first_token_accepted(s: Seq<char>)
    ensures
        first_token(s) matches Ok(None) ==> forall|i: int| 0 <= i < s.len() ==> is_accepted(#[trigger] s[i]),
        first_token(s) matches Ok(Some((_, rest))) ==> {
            &&& rest.len() < s.len()
            &&& rest == s.skip(s.len() - rest.len())
            &&& forall|i: int| 0 <= i < s.len() - rest.len() ==> is_accepted(#[trigger] s[i])
        },
    decreases s.len(),
{
    if s.len() > 0 {
        if s[0] == ' ' {
            let r = s.drop_first();
            lemma_first_token_accepted(r);
            assert forall|i: int| 1 <= i < s.len() implies s[i] == #[trigger] r[i - 1] by {}
            if let Ok(Some((_, rest))) = first_token(s) {
                assert(rest =~= s.skip(s.len() - rest.len()));
                assert forall|i: int| 0 <= i < s.len() - rest.len() implies is_accepted(#[trigger] s[i]) by {
                    if i > 0 {
                        assert(s[i] == r[i - 1]);
                    }
                }
            }
            if let Ok(None) = first_token(s) {
                assert forall|i: int| 0 <= i < s.len() implies is_accepted(#[trigger] s[i]) by {
                    if i > 0 {
                        assert(s[i] == r[i - 1]);
                    }
                }
            }
        } else if s[0] == '+' {
            assert(s.drop_first() =~= s.skip(1));
        } else if is_leading_digit(s[0]) {
            lemma_digit_run_bounds(s);
        }
    }
}

/// A line that scans without error holds only digits, `+` and spaces.
pub proof fn lemma_accepted_line(s: Seq<char>)
    requires
        lex(s) is Ok,
    ensures
        forall|i: int| 0 <= i < s.len() ==> is_accepted(#[trigger] s[i]),
    decreases s.len(),
{
    lemma_first_token_accepted(s);
    if let Ok(Some((_, rest))) = first_token(s) {
        lemma_accepted_line(rest);
        let n = s.len() - rest.len();
        assert forall|i: int| 0 <= i < s.len() implies is_accepted(#[trigger] s[i]) by {
            if i >= n {
                assert(s[i] == rest[i - n]);
            }
        }
    }
}

} // verus!
