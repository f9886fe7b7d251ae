//! Tokeniser for the textual chip description syntax: a hand-written scanner
//! over a character buffer with 1-based line/column tracking, comment and
//! whitespace skipping, and expect-style operations that append classified
//! tokens to a token list or fail with the position of the offending input.

use vstd::prelude::*;

verus! {

/// A classified token.
#[derive(Debug, PartialEq, Clone)]
pub enum Token {
    Keyword(String),
    Symbol(char),
    Identifier(String),
    Number(i32),
}

/// The failure of an expect operation: what was expected, and the 1-based
/// line and column at which scanning failed.
#[derive(Debug, PartialEq)]
pub struct UnexpectedToken {
    pub expected: Token,
    pub nline: i32,
    pub nchar: i32,
}

pub ghost enum TokenV {
    Keyword(Seq<char>),
    Symbol(char),
    Identifier(Seq<char>),
    Number(int),
}

impl View for Token {
    type V = TokenV;

    open spec fn view(&self) -> TokenV {
        match self {
            Token::Keyword(s) => TokenV::Keyword(s@),
            Token::Symbol(c) => TokenV::Symbol(*c),
            Token::Identifier(s) => TokenV::Identifier(s@),
            Token::Number(n) => TokenV::Number(*n as int),
        }
    }
}

#[verifier::ext_equal]
pub ghost struct ErrV {
    pub expected: TokenV,
    pub line: int,
    pub col: int,
}

impl View for UnexpectedToken {
    type V = ErrV;

    open spec fn view(&self) -> ErrV {
        ErrV { expected: self.expected@, line: self.nline as int, col: self.nchar as int }
    }
}

pub open spec fn toks_view(v: Vec<Token>) -> Seq<TokenV> {
    Seq::new(v@.len(), |i: int| v@[i]@)
}

/// The outcome of one scanning operation on the text `s` from a position: the
/// position it stops at, the tokens it appends, and its error, if any.
#[verifier::ext_equal]
pub ghost struct ScanV {
    pub end: int,
    pub toks: Seq<TokenV>,
    pub err: Option<ErrV>,
}

// ============================================================================
// Character classes
// ============================================================================

/// Whether the character has the Unicode white-space property: tab, line
/// feed, vertical tab, form feed, carriage return and space within ASCII, and
/// beyond it the next line, no-break space, Ogham space mark, en-quad through
/// hair-space, line and paragraph separators, narrow no-break space, medium
/// mathematical space and ideographic space.
pub open spec fn is_unicode_space(c: char) -> bool {
    ||| c == '\u{9}'
    ||| c == '\n'
    ||| c == '\u{b}'
    ||| c == '\u{c}'
    ||| c == '\r'
    ||| c == ' '
    ||| c == '\u{85}'
    ||| c == '\u{a0}'
    ||| c == '\u{1680}'
    ||| ('\u{2000}' <= c && c <= '\u{200a}')
    ||| c == '\u{2028}'
    ||| c == '\u{2029}'
    ||| c == '\u{202f}'
    ||| c == '\u{205f}'
    ||| c == '\u{3000}'
}

/// Relies on char::is_whitespace: whether the character has the Unicode
/// white-space property, whose members are exactly those `is_unicode_space`
/// enumerates.
#[verifier::external_body]
fn char_is_space(c: char) -> (r: bool)
    ensures
        r == is_unicode_space(c),
{
    c.is_whitespace()
}

/// An identifier may begin with an ASCII letter or an underscore.
pub open spec fn is_ident_start(c: char) -> bool {
    ('a' <= c && c <= 'z') || ('A' <= c && c <= 'Z') || c == '_'
}

/// An identifier continues with ASCII letters, digits or underscores.
pub open spec fn is_ident_char(c: char) -> bool {
    is_ident_start(c) || is_digit_char(c)
}

pub open spec fn is_digit_char(c: char) -> bool {
    '0' <= c && c <= '9'
}

fn ident_start(c: char) -> (r: bool)
    ensures
        r == is_ident_start(c),
{
    ('a' <= c && c <= 'z') || ('A' <= c && c <= 'Z') || c == '_'
}

fn ident_char(c: char) -> (r: bool)
    ensures
        r == is_ident_char(c),
{
    ident_start(c) || digit_char(c)
}

fn digit_char(c: char) -> (r: bool)
    ensures
        r == is_digit_char(c),
{
    '0' <= c && c <= '9'
}

// ============================================================================
// Positions
// ============================================================================

/// The 1-based line of the position after the first `i` characters of `s`.
pub open spec fn line_at(s: Seq<char>, i: int) -> int
    decreases i,
{
    if i <= 0 {
        1
    } else {
        line_at(s, i - 1) + if s[i - 1] == '\n' {
            1int
        } else {
            0int
        }
    }
}

/// The 1-based column of the position after the first `i` characters of `s`.
pub open spec fn col_at(s: Seq<char>, i: int) -> int
    decreases i,
{
    if i <= 0 {
        1
    } else if s[i - 1] == '\n' {
        1
    } else {
        col_at(s, i - 1) + 1
    }
}

pub proof fn lemma_position_bounds(s: Seq<char>, i: int)
    ensures
        1 <= line_at(s, i) <= if i <= 0 {
            1int
        } else {
            i + 1
        },
        1 <= col_at(s, i) <= if i <= 0 {
            1int
        } else {
            i + 1
        },
    decreases i,
{
    if i > 0 {
        lemma_position_bounds(s, i - 1);
    }
}

// ============================================================================
// Pattern matching over the text
// ============================================================================

/// Whether `pat` occurs in `s` starting at position `i`.
pub open spec fn matches_at(s: Seq<char>, i: int, pat: Seq<char>) -> bool {
    &&& 0 <= i
    &&& i + pat.len() <= s.len()
    &&& forall|k: int| 0 <= k < pat.len() ==> s[i + k] == #[trigger] pat[k]
}

/// The first position at or after `j` where `pat` occurs, or the length of
/// `s` when it occurs nowhere there.
pub open spec fn find_pat(s: Seq<char>, j: int, pat: Seq<char>) -> int
    decreases s.len() - j,
{
    if j < 0 || j >= s.len() {
        s.len() as int
    } else if matches_at(s, j, pat) {
        j
    } else {
        find_pat(s, j + 1, pat)
    }
}

pub proof fn lemma_find_pat(s: Seq<char>, j: int, pat: Seq<char>)
    requires
        pat.len() > 0,
        0 <= j,
    ensures
        ({
            let r = find_pat(s, j, pat);
            &&& r == s.len() || (j <= r < s.len() && matches_at(s, r, pat))
            &&& r == s.len() ==> forall|t: int| j <= t < s.len() ==> !matches_at(s, t, pat)
        }),
    decreases s.len() - j,
{
    if !(j < 0 || j >= s.len()) && !matches_at(s, j, pat) {
        lemma_find_pat(s, j + 1, pat);
    }
}

pub open spec fn block_open() -> Seq<char> {
    seq!['/', '*']
}

pub open spec fn block_close() -> Seq<char> {
    seq!['*', '/']
}

pub open spec fn line_open() -> Seq<char> {
    seq!['/', '/']
}

pub open spec fn newline_only() -> Seq<char> {
    seq!['\n']
}

// ============================================================================
// Nontoken skipping
// ============================================================================

/// Where nontoken skipping from position `i` stops, and whether it succeeds.
/// Whitespace is consumed; a terminated block comment and a line comment are
/// consumed; a line comment without a final newline runs to the end of the
/// input; an unterminated block comment stops the scan, unsuccessfully, at
/// the comment's opening.
pub open spec fn skip_nt(s: Seq<char>, i: int) -> (int, bool)
    decreases s.len() - i
        when 0 <= i <= s.len()
        via skip_nt_dec
{
    if i < 0 || i >= s.len() {
        (i, true)
    } else if is_unicode_space(s[i]) {
        skip_nt(s, i + 1)
    } else if matches_at(s, i, block_open()) {
        let k = find_pat(s, i + 2, block_close());
        if k == s.len() {
            (i, false)
        } else {
            skip_nt(s, k + 2)
        }
    } else if matches_at(s, i, line_open()) {
        let k = find_pat(s, i + 2, newline_only());
        if k == s.len() {
            (s.len() as int, true)
        } else {
            skip_nt(s, k + 1)
        }
    } else {
        (i, true)
    }
}

#[via_fn]
proof fn skip_nt_dec(s: Seq<char>, i: int) {
    if 0 <= i < s.len() {
        lemma_find_pat(s, i + 2, block_close());
        lemma_find_pat(s, i + 2, newline_only());
    }
}

pub proof fn lemma_skip_nt_bounds(s: Seq<char>, i: int)
    requires
        0 <= i <= s.len(),
    ensures
        i <= skip_nt(s, i).0 <= s.len(),
    decreases s.len() - i,
{
    if i < s.len() {
        if is_unicode_space(s[i]) {
            lemma_skip_nt_bounds(s, i + 1);
        } else if matches_at(s, i, block_open()) {
            lemma_find_pat(s, i + 2, block_close());
            let k = find_pat(s, i + 2, block_close());
            if k != s.len() {
                lemma_skip_nt_bounds(s, k + 2);
            }
        } else if matches_at(s, i, line_open()) {
            lemma_find_pat(s, i + 2, newline_only());
            let k = find_pat(s, i + 2, newline_only());
            if k != s.len() {
                lemma_skip_nt_bounds(s, k + 1);
            }
        }
    }
}

/// The error reported for a block comment that never closes, at the position
/// of its opening.
pub open spec fn unterminated_err(s: Seq<char>, i: int) -> ErrV {
    ErrV {
        expected: TokenV::Identifier("end of comment"@),
        line: line_at(s, i),
        col: col_at(s, i),
    }
}

/// Where whitespace skipping alone stops.
pub open spec fn ws_end(s: Seq<char>, i: int) -> int
    decreases s.len() - i
        when 0 <= i <= s.len()
{
    if 0 <= i < s.len() && is_unicode_space(s[i]) {
        ws_end(s, i + 1)
    } else {
        i
    }
}

/// Where comment skipping with the given opening and closing stops: each
/// occurrence of `a` at the cursor is consumed together with everything up to
/// and including the next `b`; a missing `b` consumes the rest of the input.
pub open spec fn comment_skip_end(s: Seq<char>, i: int, a: Seq<char>, b: Seq<char>) -> int
    decreases s.len() - i
        when 0 <= i <= s.len() && a.len() > 0 && b.len() > 0
        via comment_skip_end_dec
{
    if 0 <= i <= s.len() && matches_at(s, i, a) {
        let k = find_pat(s, i + a.len(), b);
        if k == s.len() {
            s.len() as int
        } else {
            comment_skip_end(s, k + b.len(), a, b)
        }
    } else {
        i
    }
}

#[via_fn]
proof fn comment_skip_end_dec(s: Seq<char>, i: int, a: Seq<char>, b: Seq<char>) {
    if 0 <= i <= s.len() && matches_at(s, i, a) {
        lemma_find_pat(s, i + a.len(), b);
    }
}

// ============================================================================
// The tokeniser
// ============================================================================

/// The longest input the tokeniser accepts, in characters; it keeps the
/// 1-based line and column counters within `i32`.
pub const MAX_SOURCE_LEN: usize = 0x7fff_0000;

pub struct Tokeniser {
    pub tokens: Vec<Token>,
    pub chars: Vec<char>,
    pub pos: usize,
    pub nline: i32,
    pub nchar: i32,
}

/// Relies on str::chars: the characters of a string slice, in order; the view
/// of a string slice is that character sequence.
#[verifier::external_body]
fn chars_of(s: &str) -> (r: Vec<char>)
    ensures
        r@ == s@,
{
    s.chars().collect()
}

/// Relies on String::from_iter over characters: collecting a range of a
/// character buffer yields the string of exactly those characters.
#[verifier::external_body]
fn string_from_range(v: &Vec<char>, start: usize, end: usize) -> (r: String)
    requires
        start <= end <= v@.len(),
    ensures
        r@ == v@.subrange(start as int, end as int),
{
    v[start..end].iter().collect()
}

impl Tokeniser {
    /// The scanned text.
    pub open spec fn text(&self) -> Seq<char> {
        self.chars@
    }

    /// The cursor: how many characters have been consumed.
    pub open spec fn at(&self) -> int {
        self.pos as int
    }

    /// The tokeniser's invariant: the cursor lies within the text, the text
    /// is not longer than `MAX_SOURCE_LEN`, and the line and column counters
    /// hold the 1-based position of the cursor.
    pub open spec fn wf(&self) -> bool {
        &&& self.pos <= self.chars@.len()
        &&& self.chars@.len() <= MAX_SOURCE_LEN
        &&& self.nline as int == line_at(self.chars@, self.pos as int)
        &&& self.nchar as int == col_at(self.chars@, self.pos as int)
    }

    pub fn new(contents: &str) -> (r: Self)
        requires
            contents@.len() <= MAX_SOURCE_LEN,
        ensures
            r.wf(),
            r.text() == contents@,
            r.at() == 0,
            toks_view(r.tokens) == Seq::<TokenV>::empty(),
    {
        let r = Tokeniser {
            tokens: Vec::new(),
            chars: chars_of(contents),
            pos: 0,
            nline: 1,
            nchar: 1,
        };
        assert(toks_view(r.tokens) =~= Seq::<TokenV>::empty());
        r
    }

    /// Consume one character, keeping the line and column counters in step:
    /// a newline begins a new line, anything else advances the column.
    pub fn next(&mut self) -> (r: Option<char>)
        requires
            old(self).wf(),
        ensures
            final(self).wf(),
            final(self).text() == old(self).text(),
            final(self).tokens == old(self).tokens,
            ({
                let s = old(self).text();
                let i = old(self).at();
                if i < s.len() {
                    r == Some(s[i]) && final(self).at() == i + 1
                } else {
                    r is None && final(self).at() == i
                }
            }),
    {
        if self.pos < self.chars.len() {
            let ch = self.chars[self.pos];
            proof {
                lemma_position_bounds(self.chars@, self.pos as int);
            }
            self.pos = self.pos + 1;
            if ch == '\n' {
                self.nline = self.nline + 1;
                self.nchar = 1;
            } else {
                self.nchar = self.nchar + 1;
            }
            Some(ch)
        } else {
            None
        }
    }

    /// The next character, without consuming it.
    pub fn peek(&self) -> (r: Option<char>)
        requires
            self.wf(),
        ensures
            ({
                let s = self.text();
                let i = self.at();
                if i < s.len() {
                    r == Some(s[i])
                } else {
                    r is None
                }
            }),
    {
        if self.pos < self.chars.len() {
            Some(self.chars[self.pos])
        } else {
            None
        }
    }

    /// Whether `pat` occurs in the text at the cursor.
    fn match_at(&self, at: usize, pat: &Vec<char>) -> (r: bool)
        requires
            self.wf(),
        ensures
            r == matches_at(self.text(), at as int, pat@),
    {
        let n = pat.len();
        if at > self.chars.len() || n > self.chars.len() - at {
            assert(!matches_at(self.text(), at as int, pat@));
            return false;
        }
        let mut k: usize = 0;
        while k < n
            invariant
                k <= n,
                n == pat@.len(),
                at + n <= self.chars@.len(),
                self.wf(),
                forall|t: int| 0 <= t < k ==> self.text()[at + t] == #[trigger] pat@[t],
            decreases n - k,
        {
            if self.chars[at + k] != pat[k] {
                assert(!matches_at(self.text(), at as int, pat@)) by {
                    assert(self.text()[at + k as int] != pat@[k as int]);
                }
                return false;
            }
            k = k + 1;
        }
        true
    }

    /// The first position at or after `from` where `pat` occurs, or the text
    /// length when there is none.
    fn find_from(&self, from: usize, pat: &Vec<char>) -> (r: usize)
        requires
            self.wf(),
            pat@.len() > 0,
        ensures
            r as int == find_pat(self.text(), from as int, pat@),
    {
        let n = self.chars.len();
        let mut j = from;
        while j < n
            invariant
                self.wf(),
                n == self.chars@.len(),
                from <= j,
                find_pat(self.text(), from as int, pat@) == find_pat(self.text(), j as int, pat@),
            decreases n - j,
        {
            if self.match_at(j, pat) {
                return j;
            }
            j = j + 1;
        }
        n
    }

    /// Consume characters until the cursor reaches `target`.
    fn advance_to(&mut self, target: usize)
        requires
            old(self).wf(),
            old(self).at() <= target as int <= old(self).text().len(),
        ensures
            final(self).wf(),
            final(self).text() == old(self).text(),
            final(self).tokens == old(self).tokens,
            final(self).at() == target as int,
    {
        while self.pos < target
            invariant
                self.wf(),
                self.text() == old(self).text(),
                self.tokens == old(self).tokens,
                self.at() <= target as int <= self.text().len(),
            decreases target as int - self.at(),
        {
            self.next();
        }
    }

    /// Consume leading whitespace; `true` exactly when the cursor moved.
    pub fn skip_whitespace(&mut self) -> (r: bool)
        requires
            old(self).wf(),
        ensures
            final(self).wf(),
            final(self).text() == old(self).text(),
            final(self).tokens == old(self).tokens,
            final(self).at() == ws_end(old(self).text(), old(self).at()),
            r == (final(self).at() != old(self).at()),
    {
        let mut moved = false;
        loop
            invariant
                self.wf(),
                self.text() == old(self).text(),
                self.tokens == old(self).tokens,
                old(self).at() <= self.at(),
                ws_end(old(self).text(), old(self).at()) == ws_end(self.text(), self.at()),
                moved == (self.at() != old(self).at()),
            decreases self.text().len() - self.at(),
        {
            match self.peek() {
                Some(ch) => {
                    if char_is_space(ch) {
                        self.next();
                        moved = true;
                    } else {
                        return moved;
                    }
                },
                None => {
                    return moved;
                },
            }
        }
    }

    /// Consume comment blocks that open with `start` and close with `end`,
    /// repeatedly; a block whose `end` never comes is consumed to the end of
    /// the input.  `true` exactly when a block was consumed.  The error for an
    /// unterminated block comment belongs to `skip_nontokens`, which every
    /// expect operation uses.
    pub fn skip_comment(&mut self, start: &str, end: &str) -> (r: bool)
        requires
            old(self).wf(),
            start@.len() > 0,
            end@.len() > 0,
        ensures
            final(self).wf(),
            final(self).text() == old(self).text(),
            final(self).tokens == old(self).tokens,
            final(self).at() == comment_skip_end(
                old(self).text(),
                old(self).at(),
                start@,
                end@,
            ),
            r == matches_at(old(self).text(), old(self).at(), start@),
    {
        let sv = chars_of(start);
        let ev = chars_of(end);
        let ghost s = self.text();
        let first = self.match_at(self.pos, &sv);
        if !first {
            return false;
        }
        loop
            invariant
                self.wf(),
                self.text() == s,
                s == old(self).text(),
                self.tokens == old(self).tokens,
                old(self).at() <= self.at() <= s.len(),
                matches_at(s, old(self).at(), start@),
                sv@ == start@,
                ev@ == end@,
                sv@.len() > 0,
                ev@.len() > 0,
                comment_skip_end(s, old(self).at(), start@, end@) == comment_skip_end(
                    s,
                    self.at(),
                    start@,
                    end@,
                ),
            decreases s.len() - self.at(),
        {
            if !self.match_at(self.pos, &sv) {
                return true;
            }
            proof {
                lemma_find_pat(s, self.at() + sv@.len(), ev@);
            }
            let open_end = self.pos + sv.len();
            let k = self.find_from(open_end, &ev);
            if k == self.chars.len() {
                let n = self.chars.len();
                self.advance_to(n);
                return true;
            }
            self.advance_to(k + ev.len());
        }
    }
}

// ============================================================================
// Scan mirrors: what each expect operation does to the text and the tokens
// ============================================================================

/// Whether `kw` occurs at `j` and is not followed by an identifier character.
pub open spec fn keyword_at(s: Seq<char>, j: int, kw: Seq<char>) -> bool {
    &&& matches_at(s, j, kw)
    &&& (j + kw.len() == s.len() || !is_ident_char(s[j + kw.len()]))
}

pub open spec fn err_at(s: Seq<char>, j: int, expected: TokenV) -> ErrV {
    ErrV { expected, line: line_at(s, j), col: col_at(s, j) }
}

/// The outcome of expecting the keyword `kw` at position `i`: nontokens are
/// skipped; the keyword, when present as a whole word, is consumed, recorded
/// and followed by another skip; otherwise the scan fails where the skip
/// stopped.
pub open spec fn scan_keyword(s: Seq<char>, i: int, kw: Seq<char>) -> ScanV {
    let (j, ok) = skip_nt(s, i);
    if !ok {
        ScanV { end: j, toks: Seq::empty(), err: Some(unterminated_err(s, j)) }
    } else if keyword_at(s, j, kw) {
        let (j2, ok2) = skip_nt(s, j + kw.len());
        ScanV {
            end: j2,
            toks: seq![TokenV::Keyword(kw)],
            err: if ok2 {
                None
            } else {
                Some(unterminated_err(s, j2))
            },
        }
    } else {
        ScanV { end: j, toks: Seq::empty(), err: Some(err_at(s, j, TokenV::Keyword(kw))) }
    }
}

/// The outcome of expecting the symbol `c` at position `i`: nontokens are
/// skipped; the scan succeeds exactly when the next character is `c`, which
/// is then consumed; a failure is reported at the position where scanning
/// stopped, with nothing consumed.
pub open spec fn scan_symbol(s: Seq<char>, i: int, c: char) -> ScanV {
    let (j, ok) = skip_nt(s, i);
    if !ok {
        ScanV { end: j, toks: Seq::empty(), err: Some(unterminated_err(s, j)) }
    } else if j < s.len() && s[j] == c {
        let (j2, ok2) = skip_nt(s, j + 1);
        ScanV {
            end: j2,
            toks: seq![TokenV::Symbol(c)],
            err: if ok2 {
                None
            } else {
                Some(unterminated_err(s, j2))
            },
        }
    } else {
        ScanV { end: j, toks: Seq::empty(), err: Some(err_at(s, j, TokenV::Symbol(c))) }
    }
}

impl Tokeniser {
    /// Consume whitespace and comments until something else is at the cursor.
    /// A block comment that never closes is an error, reported at its opening.
    pub fn skip_nontokens(&mut self) -> (r: Result<(), UnexpectedToken>)
        requires
            old(self).wf(),
        ensures
            final(self).wf(),
            final(self).text() == old(self).text(),
            final(self).tokens == old(self).tokens,
            ({
                let (e, ok) = skip_nt(old(self).text(), old(self).at());
                &&& final(self).at() == e
                &&& (r is Ok <==> ok)
                &&& (r is Err ==> (r->Err_0)@ == unterminated_err(old(self).text(), e))
            }),
    {
        let ghost s = self.text();
        let ghost i0 = self.at();
        loop
            invariant
                self.wf(),
                self.text() == s,
                s == old(self).text(),
                i0 == old(self).at(),
                self.tokens == old(self).tokens,
                skip_nt(s, i0) == skip_nt(s, self.at()),
            decreases s.len() - self.at(),
        {
            if self.pos >= self.chars.len() {
                return Ok(());
            }
            let c = self.chars[self.pos];
            if char_is_space(c) {
                self.next();
            } else if c == '/' && self.pos + 1 < self.chars.len() && self.chars[self.pos + 1]
                == '*' {
                proof {
                    assert(matches_at(s, self.at(), block_open())) by {
                        assert(block_open()[0] == '/' && block_open()[1] == '*');
                        assert(forall|k: int|
                            0 <= k < 2 ==> s[self.at() + k] == #[trigger] block_open()[k]);
                    }
                    lemma_find_pat(s, self.at() + 2, block_close());
                }
                let mut close: Vec<char> = Vec::new();
                close.push('*');
                close.push('/');
                assert(close@ =~= block_close());
                let k = self.find_from(self.pos + 2, &close);
                if k == self.chars.len() {
                    return Err(
                        UnexpectedToken {
                            expected: Token::Identifier("end of comment".to_owned()),
                            nline: self.nline,
                            nchar: self.nchar,
                        },
                    );
                }
                self.advance_to(k + 2);
            } else if c == '/' && self.pos + 1 < self.chars.len() && self.chars[self.pos + 1]
                == '/' {
                proof {
                    assert(matches_at(s, self.at(), line_open())) by {
                        assert(line_open()[0] == '/' && line_open()[1] == '/');
                        assert(forall|k: int|
                            0 <= k < 2 ==> s[self.at() + k] == #[trigger] line_open()[k]);
                    }
                    lemma_find_pat(s, self.at() + 2, newline_only());
                }
                let mut nl: Vec<char> = Vec::new();
                nl.push('\n');
                assert(nl@ =~= newline_only());
                let k = self.find_from(self.pos + 2, &nl);
                if k == self.chars.len() {
                    let n = self.chars.len();
                    self.advance_to(n);
                    return Ok(());
                }
                self.advance_to(k + 1);
            } else {
                proof {
                    assert(!matches_at(s, self.at(), block_open())) by {
                        if matches_at(s, self.at(), block_open()) {
                            assert(s[self.at()] == block_open()[0]);
                            assert(s[self.at() + 1] == block_open()[1]);
                        }
                    }
                    assert(!matches_at(s, self.at(), line_open())) by {
                        if matches_at(s, self.at(), line_open()) {
                            assert(s[self.at()] == line_open()[0]);
                            assert(s[self.at() + 1] == line_open()[1]);
                        }
                    }
                }
                return Ok(());
            }
        }
    }

    /// Expect the given keyword as a whole word, recording it as a token.
    pub fn tokenise_keyword(&mut self, keyword: &str) -> (r: Result<(), UnexpectedToken>)
        requires
            old(self).wf(),
        ensures
            final(self).wf(),
            final(self).text() == old(self).text(),
            ({
                let sc = scan_keyword(old(self).text(), old(self).at(), keyword@);
                &&& final(self).at() == sc.end
                &&& toks_view(final(self).tokens) == toks_view(old(self).tokens) + sc.toks
                &&& (r is Ok <==> sc.err is None)
                &&& (r is Err ==> (r->Err_0)@ == sc.err->0)
            }),
    {
        let ghost s = self.text();
        let ghost tv0 = toks_view(self.tokens);
        if let Err(e) = self.skip_nontokens() {
            assert(toks_view(self.tokens) =~= tv0 + Seq::<TokenV>::empty());
            return Err(e);
        }
        let kv = chars_of(keyword);
        let mut good = false;
        if self.match_at(self.pos, &kv) {
            let after = self.pos + kv.len();
            if after == self.chars.len() {
                good = true;
            } else {
                good = !ident_char(self.chars[after]);
            }
        }
        if good {
            let target = self.pos + kv.len();
            self.advance_to(target);
            self.tokens.push(Token::Keyword(keyword.to_owned()));
            assert(toks_view(self.tokens) =~= tv0 + seq![TokenV::Keyword(keyword@)]);
            let ghost tv1 = toks_view(self.tokens);
            match self.skip_nontokens() {
                Err(e) => {
                    assert(toks_view(self.tokens) == tv1);
                    Err(e)
                },
                Ok(()) => Ok(()),
            }
        } else {
            assert(toks_view(self.tokens) =~= tv0 + Seq::<TokenV>::empty());
            Err(
                UnexpectedToken {
                    expected: Token::Keyword(keyword.to_owned()),
                    nline: self.nline,
                    nchar: self.nchar,
                },
            )
        }
    }

    /// Expect the given symbol character, recording it as a token; a failure
    /// is reported at the cursor, which does not move.
    pub fn tokenise_symbol(&mut self, symbol: char) -> (r: Result<(), UnexpectedToken>)
        requires
            old(self).wf(),
        ensures
            final(self).wf(),
            final(self).text() == old(self).text(),
            ({
                let sc = scan_symbol(old(self).text(), old(self).at(), symbol);
                &&& final(self).at() == sc.end
                &&& toks_view(final(self).tokens) == toks_view(old(self).tokens) + sc.toks
                &&& (r is Ok <==> sc.err is None)
                &&& (r is Err ==> (r->Err_0)@ == sc.err->0)
            }),
    {
        let ghost s = self.text();
        let ghost tv0 = toks_view(self.tokens);
        if let Err(e) = self.skip_nontokens() {
            assert(toks_view(self.tokens) =~= tv0 + Seq::<TokenV>::empty());
            return Err(e);
        }
        let matched = match self.peek() {
            Some(ch) => ch == symbol,
            None => false,
        };
        if matched {
            self.next();
            self.tokens.push(Token::Symbol(symbol));
            assert(toks_view(self.tokens) =~= tv0 + seq![TokenV::Symbol(symbol)]);
            let ghost tv1 = toks_view(self.tokens);
            match self.skip_nontokens() {
                Err(e) => {
                    assert(toks_view(self.tokens) == tv1);
                    Err(e)
                },
                Ok(()) => Ok(()),
            }
        } else {
            assert(toks_view(self.tokens) =~= tv0 + Seq::<TokenV>::empty());
            Err(
                UnexpectedToken {
                    expected: Token::Symbol(symbol),
                    nline: self.nline,
                    nchar: self.nchar,
                },
            )
        }
    }
}

// ============================================================================
// Numbers and identifiers
// ============================================================================

/// The end of the run of decimal digits beginning at `j`.
pub open spec fn digit_end(s: Seq<char>, j: int) -> int
    decreases s.len() - j
        when 0 <= j <= s.len()
{
    if j < s.len() && is_digit_char(s[j]) {
        digit_end(s, j + 1)
    } else {
        j
    }
}

/// The end of the run of identifier characters beginning at `j`.
pub open spec fn ident_end(s: Seq<char>, j: int) -> int
    decreases s.len() - j
        when 0 <= j <= s.len()
{
    if j < s.len() && is_ident_char(s[j]) {
        ident_end(s, j + 1)
    } else {
        j
    }
}

pub proof fn lemma_run_bounds(s: Seq<char>, j: int)
    requires
        0 <= j <= s.len(),
    ensures
        j <= digit_end(s, j) <= s.len(),
        j <= ident_end(s, j) <= s.len(),
    decreases s.len() - j,
{
    if j < s.len() {
        lemma_run_bounds(s, j + 1);
    }
}

/// The value of the digits of `s` from `j` to `k`, read in base ten.
pub open spec fn digits_val(s: Seq<char>, j: int, k: int) -> int
    decreases k - j,
{
    if k <= j {
        0
    } else {
        digits_val(s, j, k - 1) * 10 + (s[k - 1] as int) - 48
    }
}

pub proof fn lemma_digits_val_mono(s: Seq<char>, j: int, k1: int, k2: int)
    requires
        j <= k1 <= k2,
        forall|t: int| j <= t < k2 ==> is_digit_char(#[trigger] s[t]),
    ensures
        0 <= digits_val(s, j, k1) <= digits_val(s, j, k2),
    decreases k2 - j,
{
    if k2 > j {
        if k1 == k2 {
            lemma_digits_val_mono(s, j, k2 - 1, k2 - 1);
        } else {
            lemma_digits_val_mono(s, j, k1, k2 - 1);
        }
    }
}

/// The outcome of expecting a number at position `i`: nontokens are skipped;
/// a nonempty digit run whose value fits the token's integer type is
/// consumed, recorded and followed by another skip; an empty run fails where
/// the skip stopped, an oversized value after its digits.
pub open spec fn scan_number(s: Seq<char>, i: int) -> ScanV {
    let (j, ok) = skip_nt(s, i);
    if !ok {
        ScanV { end: j, toks: Seq::empty(), err: Some(unterminated_err(s, j)) }
    } else {
        let e = digit_end(s, j);
        if e == j {
            ScanV { end: j, toks: Seq::empty(), err: Some(err_at(s, j, TokenV::Number(69))) }
        } else if digits_val(s, j, e) > i32::MAX as int {
            ScanV { end: e, toks: Seq::empty(), err: Some(err_at(s, e, TokenV::Number(69))) }
        } else {
            let (j2, ok2) = skip_nt(s, e);
            ScanV {
                end: j2,
                toks: seq![TokenV::Number(digits_val(s, j, e))],
                err: if ok2 {
                    None
                } else {
                    Some(unterminated_err(s, j2))
                },
            }
        }
    }
}

pub open spec fn is_keyword_str(w: Seq<char>) -> bool {
    w == "CHIP"@ || w == "IN"@ || w == "OUT"@ || w == "PARTS"@
}

pub open spec fn is_symbol_char(c: char) -> bool {
    c == '=' || c == '{' || c == ';' || c == '}' || c == ':' || c == '(' || c == ')' || c == '['
        || c == ']' || c == ','
}

pub open spec fn is_symbol_str(w: Seq<char>) -> bool {
    w.len() == 1 && is_symbol_char(w[0])
}

/// Whether the string is one of the reserved keywords.
pub fn is_keyword(s: &str) -> (r: bool)
    ensures
        r == is_keyword_str(s@),
{
    let w = s.to_owned();
    w == "CHIP".to_owned() || w == "IN".to_owned() || w == "OUT".to_owned() || w
        == "PARTS".to_owned()
}

/// Whether the string is a single reserved symbol character.
pub fn is_symbol(s: &str) -> (r: bool)
    ensures
        r == is_symbol_str(s@),
{
    let v = chars_of(s);
    if v.len() != 1 {
        return false;
    }
    let ch = v[0];
    ch == '=' || ch == '{' || ch == ';' || ch == '}' || ch == ':' || ch == '(' || ch == ')' || ch
        == '[' || ch == ']' || ch == ','
}

/// The outcome of expecting an identifier at position `i`: nontokens are
/// skipped; a word beginning with a letter or underscore is consumed and
/// recorded unless it is reserved; a bracketed index directly after the word
/// is scanned as three further tokens; a final skip follows.
pub open spec fn scan_identifier(s: Seq<char>, i: int) -> ScanV {
    let (j, ok) = skip_nt(s, i);
    if !ok {
        ScanV { end: j, toks: Seq::empty(), err: Some(unterminated_err(s, j)) }
    } else if j >= s.len() || !is_ident_start(s[j]) {
        ScanV {
            end: j,
            toks: Seq::empty(),
            err: Some(err_at(s, j, TokenV::Identifier("identifier"@))),
        }
    } else {
        let e = ident_end(s, j);
        let w = s.subrange(j, e);
        if is_keyword_str(w) || is_symbol_str(w) {
            ScanV {
                end: e,
                toks: Seq::empty(),
                err: Some(err_at(s, j, TokenV::Identifier("identifier"@))),
            }
        } else {
            let base = seq![TokenV::Identifier(w)];
            if e < s.len() && s[e] == '[' {
                let a = scan_symbol(s, e, '[');
                if a.err is Some {
                    ScanV { end: a.end, toks: base + a.toks, err: a.err }
                } else {
                    let b = scan_number(s, a.end);
                    if b.err is Some {
                        ScanV { end: b.end, toks: base + a.toks + b.toks, err: b.err }
                    } else {
                        let c2 = scan_symbol(s, b.end, ']');
                        if c2.err is Some {
                            ScanV {
                                end: c2.end,
                                toks: base + a.toks + b.toks + c2.toks,
                                err: c2.err,
                            }
                        } else {
                            let (j3, ok3) = skip_nt(s, c2.end);
                            ScanV {
                                end: j3,
                                toks: base + a.toks + b.toks + c2.toks,
                                err: if ok3 {
                                    None
                                } else {
                                    Some(unterminated_err(s, j3))
                                },
                            }
                        }
                    }
                }
            } else {
                let (j3, ok3) = skip_nt(s, e);
                ScanV {
                    end: j3,
                    toks: base,
                    err: if ok3 {
                        None
                    } else {
                        Some(unterminated_err(s, j3))
                    },
                }
            }
        }
    }
}

impl Tokeniser {
    /// Expect a number: the longest run of decimal digits, recorded as a
    /// token.  A value beyond the token's integer type is an error.
    pub fn tokenise_number(&mut self) -> (r: Result<(), UnexpectedToken>)
        requires
            old(self).wf(),
        ensures
            final(self).wf(),
            final(self).text() == old(self).text(),
            ({
                let sc = scan_number(old(self).text(), old(self).at());
                &&& final(self).at() == sc.end
                &&& toks_view(final(self).tokens) == toks_view(old(self).tokens) + sc.toks
                &&& (r is Ok <==> sc.err is None)
                &&& (r is Err ==> (r->Err_0)@ == sc.err->0)
            }),
    {
        let ghost s = self.text();
        let ghost tv0 = toks_view(self.tokens);
        if let Err(e) = self.skip_nontokens() {
            assert(toks_view(self.tokens) =~= tv0 + Seq::<TokenV>::empty());
            return Err(e);
        }
        let start = self.pos;
        let mut e = self.pos;
        loop
            invariant
                self.wf(),
                self.text() == s,
                start <= e <= s.len(),
                start == self.at(),
                digit_end(s, start as int) == digit_end(s, e as int),
                forall|t: int| start <= t < e ==> is_digit_char(#[trigger] s[t]),
            ensures
                start <= e <= s.len(),
                e as int == digit_end(s, start as int),
                forall|t: int| start <= t < e ==> is_digit_char(#[trigger] s[t]),
            decreases s.len() - e,
        {
            if e < self.chars.len() {
                if digit_char(self.chars[e]) {
                    e = e + 1;
                } else {
                    break;
                }
            } else {
                break;
            }
        }
        assert(e as int == digit_end(s, start as int));
        if e == start {
            assert(toks_view(self.tokens) =~= tv0 + Seq::<TokenV>::empty());
            return Err(
                UnexpectedToken { expected: Token::Number(69), nline: self.nline, nchar: self.nchar },
            );
        }
        let mut val: u64 = 0;
        let mut overflow = false;
        let mut t = start;
        while t < e
            invariant
                self.wf(),
                self.text() == s,
                start <= t <= e <= s.len(),
                forall|q: int| start <= q < e ==> is_digit_char(#[trigger] s[q]),
                !overflow ==> val as int == digits_val(s, start as int, t as int) && val as int
                    <= i32::MAX as int,
                overflow ==> digits_val(s, start as int, t as int) > i32::MAX as int,
            decreases e - t,
        {
            let c = self.chars[t];
            assert(is_digit_char(s[t as int]));
            let d = (c as u32) - 48;
            if !overflow {
                let nv = val * 10 + (d as u64);
                if nv > i32::MAX as u64 {
                    overflow = true;
                    proof {
                        assert(digits_val(s, start as int, t as int + 1) == digits_val(
                            s,
                            start as int,
                            t as int,
                        ) * 10 + (s[t as int] as int) - 48);
                    }
                } else {
                    val = nv;
                }
            } else {
                proof {
                    lemma_digits_val_mono(s, start as int, t as int, t as int + 1);
                }
            }
            t = t + 1;
        }
        self.advance_to(e);
        if overflow {
            assert(toks_view(self.tokens) =~= tv0 + Seq::<TokenV>::empty());
            return Err(
                UnexpectedToken { expected: Token::Number(69), nline: self.nline, nchar: self.nchar },
            );
        }
        self.tokens.push(Token::Number(val as i32));
        assert(toks_view(self.tokens) =~= tv0 + seq![
            TokenV::Number(digits_val(s, start as int, e as int)),
        ]);
        let ghost tv1 = toks_view(self.tokens);
        match self.skip_nontokens() {
            Err(er) => {
                assert(toks_view(self.tokens) == tv1);
                Err(er)
            },
            Ok(()) => Ok(()),
        }
    }

    /// Expect an identifier: a word of letters, digits and underscores that
    /// begins with a letter or underscore and is not reserved, recorded as a
    /// token; a bracketed index directly after it is recorded as three more.
    pub fn tokenise_identifier(&mut self) -> (r: Result<(), UnexpectedToken>)
        requires
            old(self).wf(),
        ensures
            final(self).wf(),
            final(self).text() == old(self).text(),
            ({
                let sc = scan_identifier(old(self).text(), old(self).at());
                &&& final(self).at() == sc.end
                &&& toks_view(final(self).tokens) == toks_view(old(self).tokens) + sc.toks
                &&& (r is Ok <==> sc.err is None)
                &&& (r is Err ==> (r->Err_0)@ == sc.err->0)
            }),
    {
        let ghost s = self.text();
        let ghost tv0 = toks_view(self.tokens);
        if let Err(e) = self.skip_nontokens() {
            assert(toks_view(self.tokens) =~= tv0 + Seq::<TokenV>::empty());
            return Err(e);
        }
        let start_ok = match self.peek() {
            Some(ch) => ident_start(ch),
            None => false,
        };
        if !start_ok {
            assert(toks_view(self.tokens) =~= tv0 + Seq::<TokenV>::empty());
            return Err(
                UnexpectedToken {
                    expected: Token::Identifier("identifier".to_owned()),
                    nline: self.nline,
                    nchar: self.nchar,
                },
            );
        }
        let start = self.pos;
        let start_line = self.nline;
        let start_col = self.nchar;
        let mut e = self.pos;
        loop
            invariant
                self.wf(),
                self.text() == s,
                start <= e <= s.len(),
                start == self.at(),
                ident_end(s, start as int) == ident_end(s, e as int),
            ensures
                start <= e <= s.len(),
                e as int == ident_end(s, start as int),
            decreases s.len() - e,
        {
            if e < self.chars.len() {
                if ident_char(self.chars[e]) {
                    e = e + 1;
                } else {
                    break;
                }
            } else {
                break;
            }
        }
        assert(e as int == ident_end(s, start as int));
        let w = string_from_range(&self.chars, start, e);
        self.advance_to(e);
        if is_keyword(w.as_str()) || is_symbol(w.as_str()) {
            assert(toks_view(self.tokens) =~= tv0 + Seq::<TokenV>::empty());
            return Err(
                UnexpectedToken {
                    expected: Token::Identifier("identifier".to_owned()),
                    nline: start_line,
                    nchar: start_col,
                },
            );
        }
        self.tokens.push(Token::Identifier(w));
        assert(toks_view(self.tokens) =~= tv0 + seq![
            TokenV::Identifier(s.subrange(start as int, e as int)),
        ]);
        let ghost base = seq![TokenV::Identifier(s.subrange(start as int, e as int))];
        let has_index = match self.peek() {
            Some(ch) => ch == '[',
            None => false,
        };
        if has_index {
            let ghost tv1 = toks_view(self.tokens);
            if let Err(er) = self.tokenise_symbol('[') {
                return Err(er);
            }
            assert(toks_view(self.tokens) =~= tv0 + (base + scan_symbol(s, e as int, '[').toks));
            let ghost tv2 = toks_view(self.tokens);
            let ghost a = scan_symbol(s, e as int, '[');
            if let Err(er) = self.tokenise_number() {
                proof {
                    let b = scan_number(s, a.end);
                    assert(toks_view(self.tokens) =~= tv0 + (base + a.toks + b.toks));
                }
                return Err(er);
            }
            let ghost b = scan_number(s, a.end);
            assert(toks_view(self.tokens) =~= tv0 + (base + a.toks + b.toks));
            if let Err(er) = self.tokenise_symbol(']') {
                proof {
                    let c2 = scan_symbol(s, b.end, ']');
                    assert(toks_view(self.tokens) =~= tv0 + (base + a.toks + b.toks + c2.toks));
                }
                return Err(er);
            }
            let ghost c2 = scan_symbol(s, b.end, ']');
            assert(toks_view(self.tokens) =~= tv0 + (base + a.toks + b.toks + c2.toks));
            let ghost tv3 = toks_view(self.tokens);
            match self.skip_nontokens() {
                Err(er) => {
                    assert(toks_view(self.tokens) == tv3);
                    Err(er)
                },
                Ok(()) => Ok(()),
            }
        } else {
            let ghost tv3 = toks_view(self.tokens);
            assert(toks_view(self.tokens) =~= tv0 + base);
            match self.skip_nontokens() {
                Err(er) => {
                    assert(toks_view(self.tokens) == tv3);
                    Err(er)
                },
                Ok(()) => Ok(()),
            }
        }
    }
}

// ============================================================================
// The grammar: scanners for lists, parts and whole chip descriptions
// ============================================================================

/// Run `b` after `a`: the tokens accumulate and the first error wins.  `b` is
/// meant to be the scan that continues at `a.end`.
pub open spec fn seq_scan(a: ScanV, b: ScanV) -> ScanV {
    if a.err is Some {
        a
    } else {
        ScanV { end: b.end, toks: a.toks + b.toks, err: b.err }
    }
}

pub proof fn lemma_scan_symbol_bounds(s: Seq<char>, i: int, c: char)
    requires
        0 <= i <= s.len(),
    ensures
        i <= scan_symbol(s, i, c).end <= s.len(),
{
    lemma_skip_nt_bounds(s, i);
    let (j, ok) = skip_nt(s, i);
    if ok && j < s.len() && s[j] == c {
        lemma_skip_nt_bounds(s, j + 1);
    }
}

pub proof fn lemma_scan_number_bounds(s: Seq<char>, i: int)
    requires
        0 <= i <= s.len(),
    ensures
        i <= scan_number(s, i).end <= s.len(),
{
    lemma_skip_nt_bounds(s, i);
    let (j, ok) = skip_nt(s, i);
    if ok {
        lemma_run_bounds(s, j);
        let e = digit_end(s, j);
        if e != j && !(digits_val(s, j, e) > i32::MAX as int) {
            lemma_skip_nt_bounds(s, e);
        }
    }
}

pub proof fn lemma_scan_identifier_bounds(s: Seq<char>, i: int)
    requires
        0 <= i <= s.len(),
    ensures
        i <= scan_identifier(s, i).end <= s.len(),
        scan_identifier(s, i).err is None ==> scan_identifier(s, i).end > i,
{
    lemma_skip_nt_bounds(s, i);
    let (j, ok) = skip_nt(s, i);
    if ok && j < s.len() && is_ident_start(s[j]) {
        lemma_run_bounds(s, j);
        lemma_run_bounds(s, j + 1);
        let e = ident_end(s, j);
        assert(e == ident_end(s, j + 1));
        assert(e > j);
        let w = s.subrange(j, e);
        if !(is_keyword_str(w) || is_symbol_str(w)) {
            if e < s.len() && s[e] == '[' {
                lemma_scan_symbol_bounds(s, e, '[');
                let a = scan_symbol(s, e, '[');
                lemma_scan_number_bounds(s, a.end);
                let b = scan_number(s, a.end);
                lemma_scan_symbol_bounds(s, b.end, ']');
                let c2 = scan_symbol(s, b.end, ']');
                lemma_skip_nt_bounds(s, c2.end);
            } else {
                lemma_skip_nt_bounds(s, e);
            }
        }
    }
}

/// The outcome of expecting one assignment, `identifier = identifier`.
pub open spec fn scan_assignment(s: Seq<char>, i: int) -> ScanV {
    let a = scan_identifier(s, i);
    let b = scan_symbol(s, a.end, '=');
    let c = scan_identifier(s, b.end);
    seq_scan(a, seq_scan(b, c))
}

pub proof fn lemma_scan_assignment_bounds(s: Seq<char>, i: int)
    requires
        0 <= i <= s.len(),
    ensures
        i <= scan_assignment(s, i).end <= s.len(),
        scan_assignment(s, i).err is None ==> scan_assignment(s, i).end > i,
{
    lemma_scan_identifier_bounds(s, i);
    let a = scan_identifier(s, i);
    lemma_scan_symbol_bounds(s, a.end, '=');
    let b = scan_symbol(s, a.end, '=');
    lemma_scan_identifier_bounds(s, b.end);
}

/// The outcome of scanning a comma-separated identifier list, up to but not
/// including a closing `;`.  Each separating comma is recorded as a symbol
/// token.
pub open spec fn scan_identifier_list(s: Seq<char>, i: int) -> ScanV
    decreases s.len() - i
        when 0 <= i <= s.len()
        via scan_identifier_list_dec
{
    if i >= s.len() {
        ScanV { end: i, toks: Seq::empty(), err: None }
    } else if s[i] == ';' {
        ScanV { end: i, toks: Seq::empty(), err: None }
    } else {
        let i1: int = if s[i] == ',' {
            i + 1
        } else {
            i
        };
        let pre: Seq<TokenV> = if s[i] == ',' {
            seq![TokenV::Symbol(',')]
        } else {
            Seq::empty()
        };
        let a = scan_identifier(s, i1);
        let tail = if a.err is Some {
            a
        } else {
            seq_scan(a, scan_identifier_list(s, a.end))
        };
        ScanV { end: tail.end, toks: pre + tail.toks, err: tail.err }
    }
}

#[via_fn]
proof fn scan_identifier_list_dec(s: Seq<char>, i: int) {
    if 0 <= i < s.len() && s[i] != ';' {
        let i1: int = if s[i] == ',' {
            i + 1
        } else {
            i
        };
        lemma_scan_identifier_bounds(s, i1);
    }
}

/// The outcome of scanning a comma-separated assignment list, up to but not
/// including a closing `)`.  Each separating comma is recorded as a symbol
/// token.
pub open spec fn scan_assignment_list(s: Seq<char>, i: int) -> ScanV
    decreases s.len() - i
        when 0 <= i <= s.len()
        via scan_assignment_list_dec
{
    if i >= s.len() {
        ScanV { end: i, toks: Seq::empty(), err: None }
    } else if s[i] == ')' {
        ScanV { end: i, toks: Seq::empty(), err: None }
    } else {
        let i1: int = if s[i] == ',' {
            i + 1
        } else {
            i
        };
        let pre: Seq<TokenV> = if s[i] == ',' {
            seq![TokenV::Symbol(',')]
        } else {
            Seq::empty()
        };
        let a = scan_assignment(s, i1);
        let tail = if a.err is Some {
            a
        } else {
            seq_scan(a, scan_assignment_list(s, a.end))
        };
        ScanV { end: tail.end, toks: pre + tail.toks, err: tail.err }
    }
}

#[via_fn]
proof fn scan_assignment_list_dec(s: Seq<char>, i: int) {
    if 0 <= i < s.len() && s[i] != ')' {
        let i1: int = if s[i] == ',' {
            i + 1
        } else {
            i
        };
        lemma_scan_assignment_bounds(s, i1);
    }
}

pub proof fn lemma_scan_assignment_list_bounds(s: Seq<char>, i: int)
    requires
        0 <= i <= s.len(),
    ensures
        i <= scan_assignment_list(s, i).end <= s.len(),
    decreases s.len() - i,
{
    if i < s.len() && s[i] != ')' {
        let i1: int = if s[i] == ',' {
            i + 1
        } else {
            i
        };
        lemma_scan_assignment_bounds(s, i1);
        let a = scan_assignment(s, i1);
        if !(a.err is Some) {
            lemma_scan_assignment_list_bounds(s, a.end);
        }
    }
}

/// The outcome of scanning one part: a chip name, a parenthesised assignment
/// list and a closing semicolon.
pub open spec fn scan_part(s: Seq<char>, i: int) -> ScanV {
    let a = scan_identifier(s, i);
    let b = scan_symbol(s, a.end, '(');
    let c = scan_assignment_list(s, b.end);
    let d = scan_symbol(s, c.end, ')');
    let e = scan_symbol(s, d.end, ';');
    seq_scan(a, seq_scan(b, seq_scan(c, seq_scan(d, e))))
}

pub proof fn lemma_scan_part_bounds(s: Seq<char>, i: int)
    requires
        0 <= i <= s.len(),
    ensures
        i <= scan_part(s, i).end <= s.len(),
        scan_part(s, i).err is None ==> scan_part(s, i).end > i,
{
    lemma_scan_identifier_bounds(s, i);
    let a = scan_identifier(s, i);
    lemma_scan_symbol_bounds(s, a.end, '(');
    let b = scan_symbol(s, a.end, '(');
    lemma_scan_assignment_list_bounds(s, b.end);
    let c = scan_assignment_list(s, b.end);
    lemma_scan_symbol_bounds(s, c.end, ')');
    let d = scan_symbol(s, c.end, ')');
    lemma_scan_symbol_bounds(s, d.end, ';');
}

/// The outcome of scanning the parts list, up to but not including the
/// closing `}`.
pub open spec fn scan_parts_list(s: Seq<char>, i: int) -> ScanV
    decreases s.len() - i
        when 0 <= i <= s.len()
        via scan_parts_list_dec
{
    if i >= s.len() {
        ScanV { end: i, toks: Seq::empty(), err: None }
    } else if s[i] == '}' {
        ScanV { end: i, toks: Seq::empty(), err: None }
    } else {
        let a = scan_part(s, i);
        if a.err is Some {
            a
        } else {
            seq_scan(a, scan_parts_list(s, a.end))
        }
    }
}

#[via_fn]
proof fn scan_parts_list_dec(s: Seq<char>, i: int) {
    if 0 <= i < s.len() && s[i] != '}' {
        lemma_scan_part_bounds(s, i);
    }
}

impl Tokeniser {
    /// Expect one assignment: `identifier = identifier`.
    pub fn tokenise_assignment(&mut self) -> (r: Result<(), UnexpectedToken>)
        requires
            old(self).wf(),
        ensures
            final(self).wf(),
            final(self).text() == old(self).text(),
            ({
                let sc = scan_assignment(old(self).text(), old(self).at());
                &&& final(self).at() == sc.end
                &&& toks_view(final(self).tokens) == toks_view(old(self).tokens) + sc.toks
                &&& (r is Ok <==> sc.err is None)
                &&& (r is Err ==> (r->Err_0)@ == sc.err->0)
            }),
    {
        let ghost s = self.text();
        let ghost tv0 = toks_view(self.tokens);
        let ghost a = scan_identifier(s, self.at());
        if let Err(e) = self.tokenise_identifier() {
            return Err(e);
        }
        let ghost b = scan_symbol(s, a.end, '=');
        if let Err(e) = self.tokenise_symbol('=') {
            proof {
                assert(toks_view(self.tokens) =~= tv0 + (a.toks + b.toks));
            }
            return Err(e);
        }
        let ghost c = scan_identifier(s, b.end);
        match self.tokenise_identifier() {
            Err(e) => {
                proof {
                    assert(toks_view(self.tokens) =~= tv0 + (a.toks + (b.toks + c.toks)));
                }
                Err(e)
            },
            Ok(()) => {
                proof {
                    assert(toks_view(self.tokens) =~= tv0 + (a.toks + (b.toks + c.toks)));
                }
                Ok(())
            },
        }
    }

    /// Expect a comma-separated identifier list, stopping before a `;`.
    pub fn tokenise_identifier_list(&mut self) -> (r: Result<(), UnexpectedToken>)
        requires
            old(self).wf(),
        ensures
            final(self).wf(),
            final(self).text() == old(self).text(),
            ({
                let sc = scan_identifier_list(old(self).text(), old(self).at());
                &&& final(self).at() == sc.end
                &&& toks_view(final(self).tokens) == toks_view(old(self).tokens) + sc.toks
                &&& (r is Ok <==> sc.err is None)
                &&& (r is Err ==> (r->Err_0)@ == sc.err->0)
            }),
    {
        let ghost s = self.text();
        let ghost tv0 = toks_view(self.tokens);
        let ghost sc0 = scan_identifier_list(s, self.at());
        loop
            invariant
                self.wf(),
                self.text() == s,
                s == old(self).text(),
                tv0 == toks_view(old(self).tokens),
                sc0 == scan_identifier_list(s, old(self).at()),
                ({
                    let r = scan_identifier_list(s, self.at());
                    &&& sc0.end == r.end
                    &&& sc0.err == r.err
                    &&& tv0 + sc0.toks == toks_view(self.tokens) + r.toks
                }),
            decreases s.len() - self.at(),
        {
            let ghost i = self.at();
            match self.peek() {
                None => {
                    assert(toks_view(self.tokens) =~= toks_view(self.tokens) + Seq::<
                        TokenV,
                    >::empty());
                    return Ok(());
                },
                Some(ch) => {
                    if ch == ',' {
                        self.next();
                        self.tokens.push(Token::Symbol(','));
                    } else if ch == ';' {
                        assert(toks_view(self.tokens) =~= toks_view(self.tokens) + Seq::<
                            TokenV,
                        >::empty());
                        return Ok(());
                    }
                    let ghost pre: Seq<TokenV> = if ch == ',' {
                        seq![TokenV::Symbol(',')]
                    } else {
                        Seq::empty()
                    };
                    let ghost i1 = self.at();
                    let ghost a = scan_identifier(s, i1);
                    proof {
                        lemma_scan_identifier_bounds(s, i1);
                    }
                    match self.tokenise_identifier() {
                        Err(e) => {
                            proof {
                                assert(scan_identifier_list(s, i) == (ScanV {
                                    end: a.end,
                                    toks: pre + a.toks,
                                    err: a.err,
                                }));
                                assert(tv0 + sc0.toks =~= toks_view(self.tokens));
                            }
                            return Err(e);
                        },
                        Ok(()) => {
                            proof {
                                let rest = scan_identifier_list(s, self.at());
                                assert(scan_identifier_list(s, i) == (ScanV {
                                    end: rest.end,
                                    toks: pre + seq_scan(a, rest).toks,
                                    err: rest.err,
                                }));
                                assert(tv0 + sc0.toks =~= toks_view(self.tokens) + rest.toks);
                            }
                        },
                    }
                },
            }
        }
    }

    /// Expect a comma-separated assignment list, stopping before a `)`.
    pub fn tokenise_assignment_list(&mut self) -> (r: Result<(), UnexpectedToken>)
        requires
            old(self).wf(),
        ensures
            final(self).wf(),
            final(self).text() == old(self).text(),
            ({
                let sc = scan_assignment_list(old(self).text(), old(self).at());
                &&& final(self).at() == sc.end
                &&& toks_view(final(self).tokens) == toks_view(old(self).tokens) + sc.toks
                &&& (r is Ok <==> sc.err is None)
                &&& (r is Err ==> (r->Err_0)@ == sc.err->0)
            }),
    {
        let ghost s = self.text();
        let ghost tv0 = toks_view(self.tokens);
        let ghost sc0 = scan_assignment_list(s, self.at());
        loop
            invariant
                self.wf(),
                self.text() == s,
                s == old(self).text(),
                tv0 == toks_view(old(self).tokens),
                sc0 == scan_assignment_list(s, old(self).at()),
                ({
                    let r = scan_assignment_list(s, self.at());
                    &&& sc0.end == r.end
                    &&& sc0.err == r.err
                    &&& tv0 + sc0.toks == toks_view(self.tokens) + r.toks
                }),
            decreases s.len() - self.at(),
        {
            let ghost i = self.at();
            match self.peek() {
                None => {
                    assert(toks_view(self.tokens) =~= toks_view(self.tokens) + Seq::<
                        TokenV,
                    >::empty());
                    return Ok(());
                },
                Some(ch) => {
                    if ch == ',' {
                        self.next();
                        self.tokens.push(Token::Symbol(','));
                    } else if ch == ')' {
                        assert(toks_view(self.tokens) =~= toks_view(self.tokens) + Seq::<
                            TokenV,
                        >::empty());
                        return Ok(());
                    }
                    let ghost pre: Seq<TokenV> = if ch == ',' {
                        seq![TokenV::Symbol(',')]
                    } else {
                        Seq::empty()
                    };
                    let ghost i1 = self.at();
                    let ghost a = scan_assignment(s, i1);
                    proof {
                        lemma_scan_assignment_bounds(s, i1);
                    }
                    match self.tokenise_assignment() {
                        Err(e) => {
                            proof {
                                assert(scan_assignment_list(s, i) == (ScanV {
                                    end: a.end,
                                    toks: pre + a.toks,
                                    err: a.err,
                                }));
                                assert(tv0 + sc0.toks =~= toks_view(self.tokens));
                            }
                            return Err(e);
                        },
                        Ok(()) => {
                            proof {
                                let rest = scan_assignment_list(s, self.at());
                                assert(scan_assignment_list(s, i) == (ScanV {
                                    end: rest.end,
                                    toks: pre + seq_scan(a, rest).toks,
                                    err: rest.err,
                                }));
                                assert(tv0 + sc0.toks =~= toks_view(self.tokens) + rest.toks);
                            }
                        },
                    }
                },
            }
        }
    }

    /// Expect one part: `Name(assignments);`.
    pub fn tokenise_part(&mut self) -> (r: Result<(), UnexpectedToken>)
        requires
            old(self).wf(),
        ensures
            final(self).wf(),
            final(self).text() == old(self).text(),
            ({
                let sc = scan_part(old(self).text(), old(self).at());
                &&& final(self).at() == sc.end
                &&& toks_view(final(self).tokens) == toks_view(old(self).tokens) + sc.toks
                &&& (r is Ok <==> sc.err is None)
                &&& (r is Err ==> (r->Err_0)@ == sc.err->0)
            }),
    {
        let ghost s = self.text();
        let ghost tv0 = toks_view(self.tokens);
        let ghost a = scan_identifier(s, self.at());
        if let Err(e) = self.tokenise_identifier() {
            return Err(e);
        }
        let ghost b = scan_symbol(s, a.end, '(');
        if let Err(e) = self.tokenise_symbol('(') {
            proof {
                assert(toks_view(self.tokens) =~= tv0 + (a.toks + b.toks));
            }
            return Err(e);
        }
        let ghost c = scan_assignment_list(s, b.end);
        if let Err(e) = self.tokenise_assignment_list() {
            proof {
                assert(toks_view(self.tokens) =~= tv0 + (a.toks + (b.toks + c.toks)));
            }
            return Err(e);
        }
        let ghost d = scan_symbol(s, c.end, ')');
        if let Err(e) = self.tokenise_symbol(')') {
            proof {
                assert(toks_view(self.tokens) =~= tv0 + (a.toks + (b.toks + (c.toks + d.toks))));
            }
            return Err(e);
        }
        let ghost e2 = scan_symbol(s, d.end, ';');
        match self.tokenise_symbol(';') {
            Err(er) => {
                proof {
                    assert(toks_view(self.tokens) =~= tv0 + (a.toks + (b.toks + (c.toks + (d.toks
                        + e2.toks)))));
                }
                Err(er)
            },
            Ok(()) => {
                proof {
                    assert(toks_view(self.tokens) =~= tv0 + (a.toks + (b.toks + (c.toks + (d.toks
                        + e2.toks)))));
                }
                Ok(())
            },
        }
    }

    /// Expect the parts list, stopping before the closing `}`.
    pub fn tokenise_parts_list(&mut self) -> (r: Result<(), UnexpectedToken>)
        requires
            old(self).wf(),
        ensures
            final(self).wf(),
            final(self).text() == old(self).text(),
            ({
                let sc = scan_parts_list(old(self).text(), old(self).at());
                &&& final(self).at() == sc.end
                &&& toks_view(final(self).tokens) == toks_view(old(self).tokens) + sc.toks
                &&& (r is Ok <==> sc.err is None)
                &&& (r is Err ==> (r->Err_0)@ == sc.err->0)
            }),
    {
        let ghost s = self.text();
        let ghost tv0 = toks_view(self.tokens);
        let ghost sc0 = scan_parts_list(s, self.at());
        loop
            invariant
                self.wf(),
                self.text() == s,
                s == old(self).text(),
                tv0 == toks_view(old(self).tokens),
                sc0 == scan_parts_list(s, old(self).at()),
                ({
                    let r = scan_parts_list(s, self.at());
                    &&& sc0.end == r.end
                    &&& sc0.err == r.err
                    &&& tv0 + sc0.toks == toks_view(self.tokens) + r.toks
                }),
            decreases s.len() - self.at(),
        {
            let ghost i = self.at();
            match self.peek() {
                None => {
                    assert(toks_view(self.tokens) =~= toks_view(self.tokens) + Seq::<
                        TokenV,
                    >::empty());
                    return Ok(());
                },
                Some(ch) => {
                    if ch != '}' {
                        let ghost a = scan_part(s, i);
                        proof {
                            lemma_scan_part_bounds(s, i);
                        }
                        match self.tokenise_part() {
                            Err(e) => {
                                proof {
                                    assert(scan_parts_list(s, i) == a);
                                    assert(tv0 + sc0.toks =~= toks_view(self.tokens));
                                }
                                return Err(e);
                            },
                            Ok(()) => {
                                proof {
                                    let rest = scan_parts_list(s, self.at());
                                    assert(scan_parts_list(s, i) == seq_scan(a, rest));
                                    assert(tv0 + sc0.toks =~= toks_view(self.tokens) + rest.toks);
                                }
                            },
                        }
                    } else {
                        assert(toks_view(self.tokens) =~= toks_view(self.tokens) + Seq::<
                            TokenV,
                        >::empty());
                        return Ok(());
                    }
                },
            }
        }
    }
}

/// The outcome of scanning the head of a chip description: `CHIP name {`.
pub open spec fn scan_chip_head(s: Seq<char>, i: int) -> ScanV {
    let t01 = scan_keyword(s, i, "CHIP"@);
    let t02 = scan_identifier(s, t01.end);
    let t03 = scan_symbol(s, t02.end, '{');
    seq_scan(t01, seq_scan(t02, t03))
}

/// The outcome of scanning the interface section: `IN ids; OUT ids;`.
pub open spec fn scan_chip_io(s: Seq<char>, i: int) -> ScanV {
    let t04 = scan_keyword(s, i, "IN"@);
    let t05 = scan_identifier_list(s, t04.end);
    let t06 = scan_symbol(s, t05.end, ';');
    let t07 = scan_keyword(s, t06.end, "OUT"@);
    let t08 = scan_identifier_list(s, t07.end);
    let t09 = scan_symbol(s, t08.end, ';');
    seq_scan(t04, seq_scan(t05, seq_scan(t06, seq_scan(t07, seq_scan(t08, t09)))))
}

/// The outcome of scanning the parts section: `PARTS: parts }`.
pub open spec fn scan_chip_parts(s: Seq<char>, i: int) -> ScanV {
    let t10 = scan_keyword(s, i, "PARTS"@);
    let t11 = scan_symbol(s, t10.end, ':');
    let t12 = scan_parts_list(s, t11.end);
    let t13 = scan_symbol(s, t12.end, '}');
    seq_scan(t10, seq_scan(t11, seq_scan(t12, t13)))
}

/// The outcome of scanning a whole chip description:
/// `CHIP name { IN ids; OUT ids; PARTS: parts }`.
pub open spec fn scan_chip(s: Seq<char>, i: int) -> ScanV {
    let a = scan_chip_head(s, i);
    let b = scan_chip_io(s, a.end);
    let c = scan_chip_parts(s, b.end);
    seq_scan(a, seq_scan(b, c))
}

impl Tokeniser {
    #[verifier::spinoff_prover]
    fn tokenise_chip_head(&mut self) -> (r: Result<(), UnexpectedToken>)
        requires
            old(self).wf(),
        ensures
            final(self).wf(),
            final(self).text() == old(self).text(),
            ({
                let sc = scan_chip_head(old(self).text(), old(self).at());
                &&& final(self).at() == sc.end
                &&& toks_view(final(self).tokens) == toks_view(old(self).tokens) + sc.toks
                &&& (r is Ok <==> sc.err is None)
                &&& (r is Err ==> (r->Err_0)@ == sc.err->0)
            }),
    {
        let ghost s = self.text();
        let ghost tv0 = toks_view(self.tokens);
        let ghost t01 = scan_keyword(s, self.at(), "CHIP"@);
        if let Err(e) = self.tokenise_keyword("CHIP") {
            return Err(e);
        }
        let ghost t02 = scan_identifier(s, t01.end);
        if let Err(e) = self.tokenise_identifier() {
            proof {
                assert(toks_view(self.tokens) =~= tv0 + (t01.toks + t02.toks));
            }
            return Err(e);
        }
        let ghost t03 = scan_symbol(s, t02.end, '{');
        match self.tokenise_symbol('{') {
            Err(e) => {
                proof {
                    assert(toks_view(self.tokens) =~= tv0 + (t01.toks + (t02.toks + t03.toks)));
                }
                Err(e)
            },
            Ok(()) => {
                proof {
                    assert(toks_view(self.tokens) =~= tv0 + (t01.toks + (t02.toks + t03.toks)));
                }
                Ok(())
            },
        }
    }

    #[verifier::rlimit(100)]
    #[verifier::spinoff_prover]
    fn tokenise_chip_io(&mut self) -> (r: Result<(), UnexpectedToken>)
        requires
            old(self).wf(),
        ensures
            final(self).wf(),
            final(self).text() == old(self).text(),
            ({
                let sc = scan_chip_io(old(self).text(), old(self).at());
                &&& final(self).at() == sc.end
                &&& toks_view(final(self).tokens) == toks_view(old(self).tokens) + sc.toks
                &&& (r is Ok <==> sc.err is None)
                &&& (r is Err ==> (r->Err_0)@ == sc.err->0)
            }),
    {
        let ghost s = self.text();
        let ghost tv0 = toks_view(self.tokens);
        let ghost t04 = scan_keyword(s, self.at(), "IN"@);
        if let Err(e) = self.tokenise_keyword("IN") {
            return Err(e);
        }
        let ghost t05 = scan_identifier_list(s, t04.end);
        if let Err(e) = self.tokenise_identifier_list() {
            proof {
                assert(toks_view(self.tokens) =~= tv0 + (t04.toks + t05.toks));
            }
            return Err(e);
        }
        let ghost t06 = scan_symbol(s, t05.end, ';');
        if let Err(e) = self.tokenise_symbol(';') {
            proof {
                assert(toks_view(self.tokens) =~= tv0 + (t04.toks + (t05.toks + t06.toks)));
            }
            return Err(e);
        }
        let ghost t07 = scan_keyword(s, t06.end, "OUT"@);
        if let Err(e) = self.tokenise_keyword("OUT") {
            proof {
                assert(toks_view(self.tokens) =~= tv0 + (t04.toks + (t05.toks + (t06.toks
                    + t07.toks))));
            }
            return Err(e);
        }
        let ghost t08 = scan_identifier_list(s, t07.end);
        if let Err(e) = self.tokenise_identifier_list() {
            proof {
                assert(toks_view(self.tokens) =~= tv0 + (t04.toks + (t05.toks + (t06.toks
                    + (t07.toks + t08.toks)))));
            }
            return Err(e);
        }
        let ghost t09 = scan_symbol(s, t08.end, ';');
        match self.tokenise_symbol(';') {
            Err(e) => {
                proof {
                    assert(toks_view(self.tokens) =~= tv0 + (t04.toks + (t05.toks + (t06.toks
                        + (t07.toks + (t08.toks + t09.toks))))));
                }
                Err(e)
            },
            Ok(()) => {
                proof {
                    assert(toks_view(self.tokens) =~= tv0 + (t04.toks + (t05.toks + (t06.toks
                        + (t07.toks + (t08.toks + t09.toks))))));
                }
                Ok(())
            },
        }
    }

    #[verifier::spinoff_prover]
    fn tokenise_chip_parts(&mut self) -> (r: Result<(), UnexpectedToken>)
        requires
            old(self).wf(),
        ensures
            final(self).wf(),
            final(self).text() == old(self).text(),
            ({
                let sc = scan_chip_parts(old(self).text(), old(self).at());
                &&& final(self).at() == sc.end
                &&& toks_view(final(self).tokens) == toks_view(old(self).tokens) + sc.toks
                &&& (r is Ok <==> sc.err is None)
                &&& (r is Err ==> (r->Err_0)@ == sc.err->0)
            }),
    {
        let ghost s = self.text();
        let ghost tv0 = toks_view(self.tokens);
        let ghost t10 = scan_keyword(s, self.at(), "PARTS"@);
        if let Err(e) = self.tokenise_keyword("PARTS") {
            return Err(e);
        }
        let ghost t11 = scan_symbol(s, t10.end, ':');
        if let Err(e) = self.tokenise_symbol(':') {
            proof {
                assert(toks_view(self.tokens) =~= tv0 + (t10.toks + t11.toks));
            }
            return Err(e);
        }
        let ghost t12 = scan_parts_list(s, t11.end);
        if let Err(e) = self.tokenise_parts_list() {
            proof {
                assert(toks_view(self.tokens) =~= tv0 + (t10.toks + (t11.toks + t12.toks)));
            }
            return Err(e);
        }
        let ghost t13 = scan_symbol(s, t12.end, '}');
        match self.tokenise_symbol('}') {
            Err(e) => {
                proof {
                    assert(toks_view(self.tokens) =~= tv0 + (t10.toks + (t11.toks + (t12.toks
                        + t13.toks))));
                }
                Err(e)
            },
            Ok(()) => {
                proof {
                    assert(toks_view(self.tokens) =~= tv0 + (t10.toks + (t11.toks + (t12.toks
                        + t13.toks))));
                }
                Ok(())
            },
        }
    }

    /// Expect a whole chip description:
    /// `CHIP name { IN ids; OUT ids; PARTS: parts }`.
    pub fn tokenise_chip(&mut self) -> (r: Result<(), UnexpectedToken>)
        requires
            old(self).wf(),
        ensures
            final(self).wf(),
            final(self).text() == old(self).text(),
            ({
                let sc = scan_chip(old(self).text(), old(self).at());
                &&& final(self).at() == sc.end
                &&& toks_view(final(self).tokens) == toks_view(old(self).tokens) + sc.toks
                &&& (r is Ok <==> sc.err is None)
                &&& (r is Err ==> (r->Err_0)@ == sc.err->0)
            }),
    {
        let ghost s = self.text();
        let ghost tv0 = toks_view(self.tokens);
        let ghost a = scan_chip_head(s, self.at());
        if let Err(e) = self.tokenise_chip_head() {
            return Err(e);
        }
        let ghost b = scan_chip_io(s, a.end);
        if let Err(e) = self.tokenise_chip_io() {
            proof {
                assert(toks_view(self.tokens) =~= tv0 + (a.toks + b.toks));
            }
            return Err(e);
        }
        let ghost c = scan_chip_parts(s, b.end);
        match self.tokenise_chip_parts() {
            Err(e) => {
                proof {
                    assert(toks_view(self.tokens) =~= tv0 + (a.toks + (b.toks + c.toks)));
                }
                Err(e)
            },
            Ok(()) => {
                proof {
                    assert(toks_view(self.tokens) =~= tv0 + (a.toks + (b.toks + c.toks)));
                }
                Ok(())
            },
        }
    }
}

// ============================================================================
// Round trips between printed tokens and scanning
// ============================================================================

proof fn lemma_ident_run(s: Seq<char>, hi: int, j: int)
    requires
        0 <= j <= hi < s.len(),
        forall|k: int| j <= k < hi ==> is_ident_char(#[trigger] s[k]),
        !is_ident_char(s[hi]),
    ensures
        ident_end(s, j) == hi,
    decreases hi - j,
{
    if j < hi {
        lemma_ident_run(s, hi, j + 1);
    }
}

/// A character at which nontoken skipping stops at once: not whitespace, and
/// not the `/` that could open a comment.
pub open spec fn stops_skipping(c: char) -> bool {
    !is_unicode_space(c) && c != '/'
}

proof fn lemma_skip_nt_stop(s: Seq<char>, p: int)
    requires
        0 <= p < s.len(),
        stops_skipping(s[p]),
    ensures
        skip_nt(s, p) == (p, true),
{
    assert(!matches_at(s, p, block_open())) by {
        if matches_at(s, p, block_open()) {
            assert(s[p] == block_open()[0]);
        }
    }
    assert(!matches_at(s, p, line_open())) by {
        if matches_at(s, p, line_open()) {
            assert(s[p] == line_open()[0]);
        }
    }
}

proof fn lemma_ident_char_classes(c: char)
    requires
        is_ident_char(c),
    ensures
        stops_skipping(c),
{
}

proof fn lemma_symbol_char_classes(c: char)
    requires
        is_symbol_char(c),
    ensures
        stops_skipping(c),
        !is_ident_char(c),
{
}

/// A word the tokeniser reads as one identifier: nonempty, led by a letter or
/// underscore, continued by identifier characters, and not reserved.
pub open spec fn ident_word(w: Seq<char>) -> bool {
    &&& w.len() > 0
    &&& is_ident_start(w[0])
    &&& forall|k: int| 0 <= k < w.len() ==> is_ident_char(#[trigger] w[k])
    &&& !is_keyword_str(w)
}

/// Scanning from an identifier word followed by a character that neither
/// continues the word, opens an index, nor needs skipping yields exactly that
/// word as one identifier token, with the cursor on the following character.
pub proof fn lemma_scan_identifier_word(s: Seq<char>, p: int, w: Seq<char>)
    requires
        0 <= p,
        p + w.len() < s.len(),
        ident_word(w),
        s.subrange(p, p + w.len()) == w,
        !is_ident_char(s[p + w.len()]),
        s[p + w.len()] != '[',
        stops_skipping(s[p + w.len()]),
    ensures
        scan_identifier(s, p) == (ScanV {
            end: p + w.len(),
            toks: seq![TokenV::Identifier(w)],
            err: None,
        }),
{
    let e = p + w.len() as int;
    assert forall|k: int| p <= k < e implies is_ident_char(#[trigger] s[k]) by {
        assert(s.subrange(p, e)[k - p] == s[k]);
        assert(is_ident_char(w[k - p]));
    }
    assert(s[p] == w[0]) by {
        assert(s.subrange(p, e)[0] == s[p]);
    }
    lemma_ident_char_classes(s[p]);
    lemma_skip_nt_stop(s, p);
    lemma_ident_run(s, e, p);
    assert(!is_symbol_str(w)) by {
        if is_symbol_str(w) {
            assert(is_symbol_char(w[0]) && is_ident_start(w[0]));
        }
    }
    lemma_skip_nt_stop(s, e);
    assert(scan_identifier(s, p) =~= (ScanV {
        end: e,
        toks: seq![TokenV::Identifier(w)],
        err: None,
    }));
}

/// Scanning from a reserved symbol followed by the end of the input or a
/// character that needs no skipping yields exactly that symbol token.
pub proof fn lemma_scan_symbol_word(s: Seq<char>, p: int, c: char)
    requires
        0 <= p < s.len(),
        s[p] == c,
        is_symbol_char(c),
        p + 1 == s.len() || stops_skipping(s[p + 1]),
    ensures
        scan_symbol(s, p, c) == (ScanV { end: p + 1, toks: seq![TokenV::Symbol(c)], err: None }),
{
    lemma_symbol_char_classes(c);
    lemma_skip_nt_stop(s, p);
    if p + 1 < s.len() {
        lemma_skip_nt_stop(s, p + 1);
    }
    assert(scan_symbol(s, p, c) =~= (ScanV {
        end: p + 1,
        toks: seq![TokenV::Symbol(c)],
        err: None,
    }));
}

/// Printing one assignment `o=f` and scanning it back yields exactly the
/// three tokens identifier, equals sign, identifier; the text continues with
/// a character that neither extends `f`, opens an index, nor needs skipping.
pub proof fn lemma_scan_assignment_word(s: Seq<char>, p: int, o: Seq<char>, f: Seq<char>)
    requires
        0 <= p,
        ident_word(o),
        ident_word(f),
        p + o.len() + 1 + f.len() < s.len(),
        s.subrange(p, p + o.len()) == o,
        s[p + o.len()] == '=',
        s.subrange(p + o.len() + 1, p + o.len() + 1 + f.len()) == f,
        !is_ident_char(s[p + o.len() + 1 + f.len()]),
        s[p + o.len() + 1 + f.len()] != '[',
        stops_skipping(s[p + o.len() + 1 + f.len()]),
    ensures
        scan_assignment(s, p) == (ScanV {
            end: p + o.len() + 1 + f.len(),
            toks: seq![TokenV::Identifier(o), TokenV::Symbol('='), TokenV::Identifier(f)],
            err: None,
        }),
{
    let q = p + o.len() as int;
    let fstart = q + 1;
    let e = fstart + f.len() as int;
    assert(!is_ident_char('=') && '=' != '[' && stops_skipping('='));
    lemma_scan_identifier_word(s, p, o);
    assert(s[fstart] == f[0]) by {
        assert(s.subrange(fstart, e)[0] == s[fstart]);
    }
    lemma_ident_char_classes(s[fstart]);
    lemma_scan_symbol_word(s, q, '=');
    lemma_scan_identifier_word(s, fstart, f);
    assert(scan_assignment(s, p) =~= (ScanV {
        end: e,
        toks: seq![TokenV::Identifier(o), TokenV::Symbol('='), TokenV::Identifier(f)],
        err: None,
    }));
}

/// Printing a part with one assignment, `Name(o=f);`, and scanning it back
/// yields exactly its seven tokens: a part with a single assignment parses.
pub proof fn lemma_scan_part_single(s: Seq<char>, p: int, name: Seq<char>, o: Seq<char>, f: Seq<char>)
    requires
        0 <= p,
        ident_word(name),
        ident_word(o),
        ident_word(f),
        ({
            let q0 = p + name.len() + 1;
            let fe = q0 + o.len() + 1 + f.len();
            &&& fe + 2 <= s.len()
            &&& s.subrange(p, p + name.len()) == name
            &&& s[p + name.len()] == '('
            &&& s.subrange(q0, q0 + o.len()) == o
            &&& s[q0 + o.len()] == '='
            &&& s.subrange(q0 + o.len() + 1, fe) == f
            &&& s[fe] == ')'
            &&& s[fe + 1] == ';'
            &&& (fe + 2 == s.len() || stops_skipping(s[fe + 2]))
        }),
    ensures
        ({
            let fe = p + name.len() + 1 + o.len() + 1 + f.len();
            scan_part(s, p) == (ScanV {
                end: fe + 2,
                toks: seq![
                    TokenV::Identifier(name),
                    TokenV::Symbol('('),
                    TokenV::Identifier(o),
                    TokenV::Symbol('='),
                    TokenV::Identifier(f),
                    TokenV::Symbol(')'),
                    TokenV::Symbol(';'),
                ],
                err: None,
            })
        }),
{
    let q0 = p + name.len() as int + 1;
    let fe = q0 + o.len() as int + 1 + f.len() as int;
    assert(!is_ident_char('(') && '(' != '[' && stops_skipping('('));
    assert(!is_ident_char(')') && ')' != '[' && stops_skipping(')'));
    assert(stops_skipping(';'));
    lemma_scan_identifier_word(s, p, name);
    assert(s[q0] == o[0]) by {
        assert(s.subrange(q0, q0 + o.len())[0] == s[q0]);
    }
    lemma_ident_char_classes(s[q0]);
    lemma_scan_symbol_word(s, p + name.len(), '(');
    lemma_scan_assignment_word(s, q0, o, f);
    assert(!is_ident_start(')') && !is_ident_start(','));
    assert(s[q0] != ')' && s[q0] != ',');
    let a = scan_assignment(s, q0);
    assert(scan_assignment_list(s, q0) == (ScanV {
        end: fe,
        toks: Seq::<TokenV>::empty() + (a.toks + scan_assignment_list(s, fe).toks),
        err: None,
    }));
    assert(scan_assignment_list(s, q0).toks =~= seq![
        TokenV::Identifier(o),
        TokenV::Symbol('='),
        TokenV::Identifier(f),
    ]);
    lemma_scan_symbol_word(s, fe, ')');
    lemma_scan_symbol_word(s, fe + 1, ';');
    assert(scan_part(s, p) =~= (ScanV {
        end: fe + 2,
        toks: seq![
            TokenV::Identifier(name),
            TokenV::Symbol('('),
            TokenV::Identifier(o),
            TokenV::Symbol('='),
            TokenV::Identifier(f),
            TokenV::Symbol(')'),
            TokenV::Symbol(';'),
        ],
        err: None,
    }));
}

/// Printing a part with two assignments, `Name(o1=f1,o2=f2);`, and scanning
/// it back yields exactly its eleven tokens, the separating comma recorded:
/// a part with multiple assignments parses.
pub proof fn lemma_scan_part_pair(
    s: Seq<char>,
    p: int,
    name: Seq<char>,
    o1: Seq<char>,
    f1: Seq<char>,
    o2: Seq<char>,
    f2: Seq<char>,
)
    requires
        0 <= p,
        ident_word(name),
        ident_word(o1),
        ident_word(f1),
        ident_word(o2),
        ident_word(f2),
        ({
            let q0 = p + name.len() + 1;
            let a1e = q0 + o1.len() + 1 + f1.len();
            let q1 = a1e + 1;
            let a2e = q1 + o2.len() + 1 + f2.len();
            &&& a2e + 2 <= s.len()
            &&& s.subrange(p, p + name.len()) == name
            &&& s[p + name.len()] == '('
            &&& s.subrange(q0, q0 + o1.len()) == o1
            &&& s[q0 + o1.len()] == '='
            &&& s.subrange(q0 + o1.len() + 1, a1e) == f1
            &&& s[a1e] == ','
            &&& s.subrange(q1, q1 + o2.len()) == o2
            &&& s[q1 + o2.len()] == '='
            &&& s.subrange(q1 + o2.len() + 1, a2e) == f2
            &&& s[a2e] == ')'
            &&& s[a2e + 1] == ';'
            &&& (a2e + 2 == s.len() || stops_skipping(s[a2e + 2]))
        }),
    ensures
        ({
            let a1e = p + name.len() + 1 + o1.len() + 1 + f1.len();
            let a2e = a1e + 1 + o2.len() + 1 + f2.len();
            scan_part(s, p) == (ScanV {
                end: a2e + 2,
                toks: seq![
                    TokenV::Identifier(name),
                    TokenV::Symbol('('),
                    TokenV::Identifier(o1),
                    TokenV::Symbol('='),
                    TokenV::Identifier(f1),
                    TokenV::Symbol(','),
                    TokenV::Identifier(o2),
                    TokenV::Symbol('='),
                    TokenV::Identifier(f2),
                    TokenV::Symbol(')'),
                    TokenV::Symbol(';'),
                ],
                err: None,
            })
        }),
{
    let q0 = p + name.len() as int + 1;
    let a1e = q0 + o1.len() as int + 1 + f1.len() as int;
    let q1 = a1e + 1;
    let a2e = q1 + o2.len() as int + 1 + f2.len() as int;
    assert(!is_ident_char('(') && '(' != '[' && stops_skipping('('));
    assert(!is_ident_char(')') && ')' != '[' && stops_skipping(')'));
    assert(!is_ident_char(',') && ',' != '[' && stops_skipping(','));
    assert(stops_skipping(';'));
    lemma_scan_identifier_word(s, p, name);
    assert(s[q0] == o1[0]) by {
        assert(s.subrange(q0, q0 + o1.len())[0] == s[q0]);
    }
    lemma_ident_char_classes(s[q0]);
    lemma_scan_symbol_word(s, p + name.len(), '(');
    lemma_scan_assignment_word(s, q0, o1, f1);
    lemma_scan_assignment_word(s, q1, o2, f2);
    assert(!is_ident_start(')') && !is_ident_start(','));
    assert(s[q0] != ')' && s[q0] != ',');
    let a1 = scan_assignment(s, q0);
    let a2 = scan_assignment(s, q1);
    assert(scan_assignment_list(s, a1e) == (ScanV {
        end: a2e,
        toks: seq![TokenV::Symbol(',')] + (a2.toks + scan_assignment_list(s, a2e).toks),
        err: None,
    }));
    assert(scan_assignment_list(s, a1e).toks =~= seq![
        TokenV::Symbol(','),
        TokenV::Identifier(o2),
        TokenV::Symbol('='),
        TokenV::Identifier(f2),
    ]);
    assert(scan_assignment_list(s, q0) == (ScanV {
        end: a2e,
        toks: Seq::<TokenV>::empty() + (a1.toks + scan_assignment_list(s, a1e).toks),
        err: None,
    }));
    assert(scan_assignment_list(s, q0).toks =~= seq![
        TokenV::Identifier(o1),
        TokenV::Symbol('='),
        TokenV::Identifier(f1),
        TokenV::Symbol(','),
        TokenV::Identifier(o2),
        TokenV::Symbol('='),
        TokenV::Identifier(f2),
    ]);
    lemma_scan_symbol_word(s, a2e, ')');
    lemma_scan_symbol_word(s, a2e + 1, ';');
    assert(scan_part(s, p) =~= (ScanV {
        end: a2e + 2,
        toks: seq![
            TokenV::Identifier(name),
            TokenV::Symbol('('),
            TokenV::Identifier(o1),
            TokenV::Symbol('='),
            TokenV::Identifier(f1),
            TokenV::Symbol(','),
            TokenV::Identifier(o2),
            TokenV::Symbol('='),
            TokenV::Identifier(f2),
            TokenV::Symbol(')'),
            TokenV::Symbol(';'),
        ],
        err: None,
    }));
}

/// Printing an identifier word and scanning it back yields exactly that word
/// as one identifier token: the text is the word followed by a `;`, as the
/// canonical printing of an interface list would leave it.
pub proof fn lemma_identifier_round_trip(s: Seq<char>, w: Seq<char>)
    requires
        ident_word(w),
        s.len() == w.len() + 1,
        s.subrange(0, w.len() as int) == w,
        s[w.len() as int] == ';',
    ensures
        ({
            let sc = scan_identifier(s, 0);
            &&& sc.err is None
            &&& sc.toks == seq![TokenV::Identifier(w)]
            &&& sc.end == w.len()
        }),
{
    assert(!is_ident_char(';') && ';' != '[' && stops_skipping(';'));
    lemma_scan_identifier_word(s, 0, w);
}

/// Printing one reserved symbol and scanning it back yields exactly that
/// symbol token.
pub proof fn lemma_symbol_round_trip(s: Seq<char>, c: char)
    requires
        is_symbol_char(c),
        s == seq![c],
    ensures
        ({
            let sc = scan_symbol(s, 0, c);
            &&& sc.err is None
            &&& sc.toks == seq![TokenV::Symbol(c)]
            &&& sc.end == 1
        }),
{
    lemma_scan_symbol_word(s, 0, c);
}

/// Printing a keyword and scanning it back as an expected keyword yields
/// exactly that keyword token: the text is the keyword followed by a space.
pub proof fn lemma_keyword_round_trip(s: Seq<char>, kw: Seq<char>)
    requires
        kw.len() > 0,
        forall|k: int| 0 <= k < kw.len() ==> is_ident_char(#[trigger] kw[k]),
        s.len() == kw.len() + 1,
        s.subrange(0, kw.len() as int) == kw,
        s[kw.len() as int] == ' ',
    ensures
        ({
            let sc = scan_keyword(s, 0, kw);
            &&& sc.err is None
            &&& sc.toks == seq![TokenV::Keyword(kw)]
            &&& sc.end == s.len()
        }),
{
    let klen = kw.len() as int;
    assert forall|k: int| 0 <= k < klen implies s[k] == kw[k] by {
        assert(s.subrange(0, klen)[k] == s[k]);
    }
    assert(!is_unicode_space(s[0]));
    assert(s[0] != '/');
    assert(!matches_at(s, 0, block_open())) by {
        if matches_at(s, 0, block_open()) {
            assert(s[0] == block_open()[0]);
        }
    }
    assert(!matches_at(s, 0, line_open())) by {
        if matches_at(s, 0, line_open()) {
            assert(s[0] == line_open()[0]);
        }
    }
    assert(skip_nt(s, 0) == (0int, true));
    assert(keyword_at(s, 0, kw)) by {
        assert(matches_at(s, 0, kw));
        assert(!is_ident_char(s[klen]));
    }
    assert(is_unicode_space(s[klen]));
    assert(skip_nt(s, klen) == skip_nt(s, klen + 1));
    assert(skip_nt(s, klen + 1) == (klen + 1, true));
}

} // verus!
