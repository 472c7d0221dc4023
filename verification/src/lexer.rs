//! The lexer: turns source text into tokens, and records what it could not read.
use vstd::prelude::*;
use crate::text::{ascii_upper, is_alnum, is_alpha, is_ascii_alphanumeric, is_ascii_digit, is_digit, push_char, push_decimal, chars_of, decimal};
use crate::numeral::{is_exp_mark, is_mantissa, is_number_text, unsigned};
use crate::token::{type_display, upper_snake, Token, TokenType, TokenView};

verus! {

/// What the lexer could not read, with the line it was on.
pub enum LexError {
    UnterminatedString { line: u32 },
    InvalidNumber { line: u32, text: String },
    UnexpectedCharacter { line: u32, character: char },
}

/// A `LexError` with its text taken as a character sequence.
pub enum LexErrorView {
    UnterminatedString { line: u32 },
    InvalidNumber { line: u32, text: Seq<char> },
    UnexpectedCharacter { line: u32, character: char },
}

impl View for LexError {
    type V = LexErrorView;

    open spec fn view(&self) -> LexErrorView {
        match self {
            LexError::UnterminatedString { line } => LexErrorView::UnterminatedString { line: *line },
            LexError::InvalidNumber { line, text } => LexErrorView::InvalidNumber { line: *line, text: text@ },
            LexError::UnexpectedCharacter { line, character } => LexErrorView::UnexpectedCharacter {
                line: *line,
                character: *character,
            },
        }
    }
}

/// The views of a sequence of tokens.
pub open spec fn token_views(s: Seq<Token>) -> Seq<TokenView> {
    s.map_values(|t: Token| t@)
}

/// The views of a sequence of lexing errors.
pub open spec fn error_views(s: Seq<LexError>) -> Seq<LexErrorView> {
    s.map_values(|e: LexError| e@)
}

/// The text reported for a lexing error.
pub open spec fn error_message(e: LexErrorView) -> Seq<char> {
    match e {
        LexErrorView::UnterminatedString { line } =>
            "[line "@ + decimal(line as nat) + "] Error: Unterminated string."@,
        LexErrorView::InvalidNumber { line, text } =>
            "[line "@ + decimal(line as nat) + "] Error: Invalid number literal: "@ + text,
        LexErrorView::UnexpectedCharacter { line, character } =>
            "[line "@ + decimal(line as nat) + "] Error: Unexpected character: "@ + seq![character],
    }
}

/// The character at `i`, or `'\0'` past either end.
pub open spec fn char_at(src: Seq<char>, i: int) -> char {
    if 0 <= i < src.len() {
        src[i]
    } else {
        '\0'
    }
}

/// The kind of the two-character operator `c d`, if it is one.
pub open spec fn double_kind(c: char, d: char) -> Option<TokenType> {
    if d != '=' {
        None
    } else if c == '=' {
        Some(TokenType::EqualEqual)
    } else if c == '!' {
        Some(TokenType::BangEqual)
    } else if c == '<' {
        Some(TokenType::LessEqual)
    } else if c == '>' {
        Some(TokenType::GreaterEqual)
    } else {
        None
    }
}

/// The kind of the one-character token `c`, if it is one.
pub open spec fn single_kind(c: char) -> Option<TokenType> {
    if c == '(' {
        Some(TokenType::LeftParen)
    } else if c == ')' {
        Some(TokenType::RightParen)
    } else if c == '{' {
        Some(TokenType::LeftBrace)
    } else if c == '}' {
        Some(TokenType::RightBrace)
    } else if c == '*' {
        Some(TokenType::Star)
    } else if c == '.' {
        Some(TokenType::Dot)
    } else if c == ',' {
        Some(TokenType::Comma)
    } else if c == '+' {
        Some(TokenType::Plus)
    } else if c == '-' {
        Some(TokenType::Minus)
    } else if c == ';' {
        Some(TokenType::Semicolon)
    } else if c == '=' {
        Some(TokenType::Equal)
    } else if c == '!' {
        Some(TokenType::Bang)
    } else if c == '<' {
        Some(TokenType::Less)
    } else if c == '>' {
        Some(TokenType::Greater)
    } else if c == '/' {
        Some(TokenType::Slash)
    } else {
        None
    }
}

/// The keyword spelt `w`, if `w` is one.
pub open spec fn keyword(w: Seq<char>) -> Option<TokenType> {
    if w == "and"@ {
        Some(TokenType::And)
    } else if w == "class"@ {
        Some(TokenType::Class)
    } else if w == "else"@ {
        Some(TokenType::Else)
    } else if w == "false"@ {
        Some(TokenType::False)
    } else if w == "for"@ {
        Some(TokenType::For)
    } else if w == "fun"@ {
        Some(TokenType::Fun)
    } else if w == "if"@ {
        Some(TokenType::If)
    } else if w == "nil"@ {
        Some(TokenType::Nil)
    } else if w == "or"@ {
        Some(TokenType::Or)
    } else if w == "print"@ {
        Some(TokenType::Print)
    } else if w == "return"@ {
        Some(TokenType::Return)
    } else if w == "super"@ {
        Some(TokenType::Super)
    } else if w == "this"@ {
        Some(TokenType::This)
    } else if w == "true"@ {
        Some(TokenType::True)
    } else if w == "var"@ {
        Some(TokenType::Var)
    } else if w == "while"@ {
        Some(TokenType::While)
    } else {
        None
    }
}

/// The runs of characters that the lexer reads in one go.
#[derive(Clone, Copy)]
pub enum RunKind {
    /// The rest of a line comment: anything but a newline.
    Comment,
    /// The body of a string: anything but a double quote.
    Text,
    /// A numeral: digits and dots.
    Numeral,
    /// A word: letters, digits and underscores.
    Word,
}

/// Whether a run of the given kind goes on over `c`.
pub open spec fn keeps(kind: RunKind, c: char) -> bool {
    match kind {
        RunKind::Comment => c != '\n',
        RunKind::Text => c != '"',
        RunKind::Numeral => is_digit(c) || c == '.',
        RunKind::Word => is_alnum(c) || c == '_',
    }
}

/// Where a run of the given kind that starts at `i` ends: the first position
/// from `i` on whose character does not belong to it, or the end of the text.
pub open spec fn run_end(src: Seq<char>, i: int, kind: RunKind) -> int
    decreases src.len() - i,
{
    if 0 <= i < src.len() && keeps(kind, src[i]) {
        run_end(src, i + 1, kind)
    } else {
        i
    }
}

/// Where a block comment read from `pos` with nesting `depth` ends, and the
/// line reached there. Nested openers deepen it, closers end one level, and
/// each newline inside counts; an unclosed comment runs to the end.
pub open spec fn block_comment(src: Seq<char>, pos: int, depth: int, line: int) -> (int, int)
    decreases src.len() - pos,
{
    if pos < 0 || pos >= src.len() {
        (pos, line)
    } else {
        let c = src[pos];
        let d = char_at(src, pos + 1);
        let opens = c == '/' && d == '*';
        let closes = !opens && c == '*' && d == '/';
        let depth2 = if opens {
            depth + 1
        } else if closes {
            depth - 1
        } else {
            depth
        };
        let line2 = if !opens && !closes && c == '\n' {
            line + 1
        } else {
            line
        };
        let next = if opens || closes {
            pos + 2
        } else {
            pos + 1
        };
        if depth2 == 0 {
            (next, line2)
        } else {
            block_comment(src, next, depth2, line2)
        }
    }
}

/// The number of times `c` occurs in `s`.
pub open spec fn count_char(s: Seq<char>, c: char) -> nat
    decreases s.len(),
{
    if s.len() == 0 {
        0
    } else {
        count_char(s.drop_last(), c) + if s.last() == c {
            1nat
        } else {
            0nat
        }
    }
}

/// One step of the lexer: where it goes on from, the line it is on then,
/// and the token or the error that it records, if any.
pub struct ScanStep {
    pub next: int,
    pub line: int,
    pub token: Option<TokenView>,
    pub error: Option<LexErrorView>,
}

/// A token of the given kind, lexeme and literal on a line.
pub open spec fn token_view(kind: TokenType, lexeme: Seq<char>, literal: Seq<char>, line: int) -> TokenView {
    TokenView { token_type: kind, lexeme, literal, line: line as u32 }
}

/// A step that records nothing.
pub open spec fn skip_to(next: int, line: int) -> ScanStep {
    ScanStep { next, line, token: None, error: None }
}

/// What the lexer does at `pos` (inside the text) on line `line`.
///
/// Two-character operators come first, then comments, then one-character
/// tokens, blanks and newlines, strings, numerals, words; anything else is an
/// unexpected character. A numeral holds digits and dots and is refused when
/// it has more than one dot; its literal is the numeral as written.
pub open spec fn scan_step(src: Seq<char>, pos: int, line: int) -> ScanStep {
    let c = src[pos];
    let d = char_at(src, pos + 1);
    if double_kind(c, d) is Some {
        ScanStep {
            next: pos + 2,
            line,
            token: Some(token_view(double_kind(c, d)->0, seq![c, d], "null"@, line)),
            error: None,
        }
    } else if c == '/' && d == '/' {
        skip_to(run_end(src, pos, RunKind::Comment), line)
    } else if c == '/' && d == '*' {
        let (next, line2) = block_comment(src, pos, 0, line);
        skip_to(next, line2)
    } else if single_kind(c) is Some {
        ScanStep {
            next: pos + 1,
            line,
            token: Some(token_view(single_kind(c)->0, seq![c], "null"@, line)),
            error: None,
        }
    } else if c == ' ' || c == '\t' {
        skip_to(pos + 1, line)
    } else if c == '\n' {
        skip_to(pos + 1, line + 1)
    } else if c == '"' {
        let end = run_end(src, pos + 1, RunKind::Text);
        if end >= src.len() {
            ScanStep {
                next: end,
                line,
                token: None,
                error: Some(LexErrorView::UnterminatedString { line: line as u32 }),
            }
        } else {
            let body = src.subrange(pos + 1, end);
            ScanStep {
                next: end + 1,
                line,
                token: Some(token_view(TokenType::String, seq!['"'] + body + seq!['"'], body, line)),
                error: None,
            }
        }
    } else if is_digit(c) {
        let end = run_end(src, pos, RunKind::Numeral);
        let numeral = src.subrange(pos, end);
        if count_char(numeral, '.') <= 1 {
            ScanStep {
                next: end,
                line,
                token: Some(token_view(TokenType::Number, numeral, numeral, line)),
                error: None,
            }
        } else {
            ScanStep {
                next: end,
                line,
                token: None,
                error: Some(LexErrorView::InvalidNumber { line: line as u32, text: numeral }),
            }
        }
    } else if is_alpha(c) || c == '_' {
        let end = run_end(src, pos, RunKind::Word);
        let word = src.subrange(pos, end);
        let kind = match keyword(word) {
            Some(k) => k,
            None => TokenType::Identifier,
        };
        ScanStep { next: end, line, token: Some(token_view(kind, word, "null"@, line)), error: None }
    } else {
        ScanStep {
            next: pos + 1,
            line,
            token: None,
            error: Some(LexErrorView::UnexpectedCharacter { line: line as u32, character: c }),
        }
    }
}

/// The one-element sequence of what an option holds, or the empty one.
pub open spec fn opt_seq<A>(o: Option<A>) -> Seq<A> {
    match o {
        Some(x) => seq![x],
        None => Seq::empty(),
    }
}

/// Lexing the text from `pos` on line `line` to its end: the tokens read,
/// the errors recorded, and the line reached at the end.
pub open spec fn scan(src: Seq<char>, pos: int, line: int) -> (Seq<TokenView>, Seq<LexErrorView>, int)
    decreases src.len() - pos,
{
    if pos < 0 || pos >= src.len() {
        (Seq::empty(), Seq::empty(), line)
    } else {
        let step = scan_step(src, pos, line);
        if step.next <= pos || step.next > src.len() {
            (Seq::empty(), Seq::empty(), line)
        } else {
            let rest = scan(src, step.next, step.line);
            (opt_seq(step.token) + rest.0, opt_seq(step.error) + rest.1, rest.2)
        }
    }
}

/// The token that closes every token list.
pub open spec fn eof_token(line: int) -> TokenView {
    token_view(TokenType::Eof, Seq::empty(), "null"@, line)
}

/// All the tokens read from position `pos` on line `line`, the end-of-file
/// token last.
pub open spec fn tokens_from(src: Seq<char>, pos: int, line: int) -> Seq<TokenView> {
    let r = scan(src, pos, line);
    r.0.push(eof_token(r.2))
}

/// The tokens of a whole text, read from its start on line 1.
pub open spec fn tokenize(src: Seq<char>) -> Seq<TokenView> {
    tokens_from(src, 0, 1)
}

/// The errors recorded while reading a whole text.
pub open spec fn lex_errors(src: Seq<char>) -> Seq<LexErrorView> {
    scan(src, 0, 1).1
}

/// A run ends at or after its start, inside the text, on a character that
/// does not belong to it; everything before belongs to it.
pub proof fn lemma_run_end(src: Seq<char>, i: int, kind: RunKind)
    requires
        0 <= i <= src.len(),
    ensures
        i <= run_end(src, i, kind) <= src.len(),
        run_end(src, i, kind) < src.len() ==> !keeps(kind, src[run_end(src, i, kind)]),
        forall|j: int| i <= j < run_end(src, i, kind) ==> keeps(kind, #[trigger] src[j]),
    decreases src.len() - i,
{
    if i < src.len() && keeps(kind, src[i]) {
        lemma_run_end(src, i + 1, kind);
    }
}

/// A block comment read from inside the text ends after its start and not
/// past the end, on a line no earlier than the one it started on.
pub proof fn lemma_block_comment(src: Seq<char>, pos: int, depth: int, line: int)
    requires
        0 <= pos <= src.len(),
    ensures
        pos < src.len() ==> pos < block_comment(src, pos, depth, line).0,
        block_comment(src, pos, depth, line).0 <= src.len(),
        block_comment(src, pos, depth, line).1 >= line,
    decreases src.len() - pos,
{
    if pos < src.len() {
        let c = src[pos];
        let d = char_at(src, pos + 1);
        let opens = c == '/' && d == '*';
        let closes = !opens && c == '*' && d == '/';
        let depth2 = if opens {
            depth + 1
        } else if closes {
            depth - 1
        } else {
            depth
        };
        let line2 = if !opens && !closes && c == '\n' {
            line + 1
        } else {
            line
        };
        let next = if opens || closes {
            pos + 2
        } else {
            pos + 1
        };
        if depth2 != 0 {
            lemma_block_comment(src, next, depth2, line2);
        }
    }
}

/// Each step of the lexer moves forward, stays inside the text, and never
/// goes back a line.
pub proof fn lemma_scan_step(src: Seq<char>, pos: int, line: int)
    requires
        0 <= pos < src.len(),
    ensures
        pos < scan_step(src, pos, line).next <= src.len(),
        scan_step(src, pos, line).line >= line,
{
    let c = src[pos];
    let d = char_at(src, pos + 1);
    lemma_run_end(src, pos, RunKind::Comment);
    lemma_run_end(src, pos + 1, RunKind::Text);
    lemma_run_end(src, pos, RunKind::Numeral);
    lemma_run_end(src, pos, RunKind::Word);
    lemma_block_comment(src, pos, 0, line);
}

/// Lexing never goes back a line.
pub proof fn lemma_scan_line(src: Seq<char>, pos: int, line: int)
    ensures
        scan(src, pos, line).2 >= line,
    decreases src.len() - pos,
{
    if 0 <= pos < src.len() {
        lemma_scan_step(src, pos, line);
        let step = scan_step(src, pos, line);
        lemma_scan_line(src, step.next, step.line);
    }
}

/// The lexer's state: the text as characters, the position reached, the line
/// it is on, whether anything could not be read, and what could not.
pub struct Lexer {
    pub source: Vec<char>,
    pub current: usize,
    pub line: u32,
    pub encountered_error: bool,
    pub errors: Vec<LexError>,
}

fn double_kind_of(c: char, d: char) -> (r: Option<TokenType>)
    ensures
        r == double_kind(c, d),
{
    if d != '=' {
        None
    } else if c == '=' {
        Some(TokenType::EqualEqual)
    } else if c == '!' {
        Some(TokenType::BangEqual)
    } else if c == '<' {
        Some(TokenType::LessEqual)
    } else if c == '>' {
        Some(TokenType::GreaterEqual)
    } else {
        None
    }
}

fn single_kind_of(c: char) -> (r: Option<TokenType>)
    ensures
        r == single_kind(c),
{
    if c == '(' {
        Some(TokenType::LeftParen)
    } else if c == ')' {
        Some(TokenType::RightParen)
    } else if c == '{' {
        Some(TokenType::LeftBrace)
    } else if c == '}' {
        Some(TokenType::RightBrace)
    } else if c == '*' {
        Some(TokenType::Star)
    } else if c == '.' {
        Some(TokenType::Dot)
    } else if c == ',' {
        Some(TokenType::Comma)
    } else if c == '+' {
        Some(TokenType::Plus)
    } else if c == '-' {
        Some(TokenType::Minus)
    } else if c == ';' {
        Some(TokenType::Semicolon)
    } else if c == '=' {
        Some(TokenType::Equal)
    } else if c == '!' {
        Some(TokenType::Bang)
    } else if c == '<' {
        Some(TokenType::Less)
    } else if c == '>' {
        Some(TokenType::Greater)
    } else if c == '/' {
        Some(TokenType::Slash)
    } else {
        None
    }
}

fn is_word(word: &String, kw: &str) -> (r: bool)
    ensures
        r == (word@ == kw@),
{
    let k = String::from_str(kw);
    *word == k
}

fn keyword_of(word: &String) -> (r: Option<TokenType>)
    ensures
        r == keyword(word@),
{
    if is_word(word, "and") {
        Some(TokenType::And)
    } else if is_word(word, "class") {
        Some(TokenType::Class)
    } else if is_word(word, "else") {
        Some(TokenType::Else)
    } else if is_word(word, "false") {
        Some(TokenType::False)
    } else if is_word(word, "for") {
        Some(TokenType::For)
    } else if is_word(word, "fun") {
        Some(TokenType::Fun)
    } else if is_word(word, "if") {
        Some(TokenType::If)
    } else if is_word(word, "nil") {
        Some(TokenType::Nil)
    } else if is_word(word, "or") {
        Some(TokenType::Or)
    } else if is_word(word, "print") {
        Some(TokenType::Print)
    } else if is_word(word, "return") {
        Some(TokenType::Return)
    } else if is_word(word, "super") {
        Some(TokenType::Super)
    } else if is_word(word, "this") {
        Some(TokenType::This)
    } else if is_word(word, "true") {
        Some(TokenType::True)
    } else if is_word(word, "var") {
        Some(TokenType::Var)
    } else if is_word(word, "while") {
        Some(TokenType::While)
    } else {
        None
    }
}

fn keeps_char(kind: RunKind, c: char) -> (r: bool)
    ensures
        r == keeps(kind, c),
{
    match kind {
        RunKind::Comment => c != '\n',
        RunKind::Text => c != '"',
        RunKind::Numeral => is_ascii_digit(c) || c == '.',
        RunKind::Word => is_ascii_alphanumeric(c) || c == '_',
    }
}

fn null_text() -> (r: String)
    ensures
        r@ == "null"@,
{
    String::from_str("null")
}

impl Lexer {
    /// A lexer at the start of `source`, on line 1, with nothing refused yet.
    pub fn new(source: String) -> (r: Self)
        ensures
            r.source@ == source@,
            r.current == 0,
            r.line == 1,
            !r.encountered_error,
            r.errors@.len() == 0,
    {
        Self {
            source: chars_of(source.as_str()),
            current: 0,
            line: 1,
            encountered_error: false,
            errors: Vec::new(),
        }
    }

    fn eof(&self) -> (r: bool)
        ensures
            r == (self.current >= self.source@.len()),
    {
        self.current >= self.source.len()
    }

    fn peek_at(&self, offset: usize) -> (c: char)
        ensures
            c == char_at(self.source@, self.current + offset),
    {
        if self.current >= self.source.len() || offset >= self.source.len() - self.current {
            return '\0';
        }
        self.source[self.current + offset]
    }

    fn peek(&self) -> (c: char)
        ensures
            c == char_at(self.source@, self.current as int),
    {
        self.peek_at(0)
    }

    fn consume(&mut self) -> (c: char)
        requires
            old(self).current < usize::MAX,
        ensures
            c == char_at(old(self).source@, old(self).current as int),
            final(self).current == old(self).current + 1,
            final(self).source == old(self).source,
            final(self).line == old(self).line,
            final(self).encountered_error == old(self).encountered_error,
            final(self).errors == old(self).errors,
    {
        let c = self.peek();
        self.current += 1;
        c
    }

    /// Moves over the run of the given kind that starts here.
    fn advance_run(&mut self, kind: RunKind)
        requires
            old(self).current <= old(self).source@.len(),
        ensures
            final(self).current == run_end(old(self).source@, old(self).current as int, kind),
            final(self).source == old(self).source,
            final(self).line == old(self).line,
            final(self).encountered_error == old(self).encountered_error,
            final(self).errors == old(self).errors,
    {
        let ghost start = self.current as int;
        let n = self.source.len();
        while !self.eof() && keeps_char(kind, self.peek())
            invariant
                n == self.source@.len(),
                self.source == old(self).source,
                self.line == old(self).line,
                self.encountered_error == old(self).encountered_error,
                self.errors == old(self).errors,
                self.current <= self.source@.len(),
                run_end(self.source@, self.current as int, kind) == run_end(self.source@, start, kind),
            decreases self.source@.len() - self.current,
        {
            self.consume();
        }
    }

    /// The text between two positions.
    fn text(&self, start: usize, end: usize) -> (r: String)
        requires
            start <= end <= self.source@.len(),
        ensures
            r@ == self.source@.subrange(start as int, end as int),
    {
        let mut r = String::new();
        let mut i = start;
        while i < end
            invariant
                start <= i <= end <= self.source@.len(),
                r@ == self.source@.subrange(start as int, i as int),
            decreases end - i,
        {
            push_char(&mut r, self.source[i]);
            i += 1;
            assert(r@ =~= self.source@.subrange(start as int, i as int));
        }
        r
    }

    /// The number of dots between two positions.
    fn dots(&self, start: usize, end: usize) -> (r: usize)
        requires
            start <= end <= self.source@.len(),
        ensures
            r == count_char(self.source@.subrange(start as int, end as int), '.'),
    {
        let mut n: usize = 0;
        let mut i = start;
        while i < end
            invariant
                start <= i <= end <= self.source@.len(),
                n == count_char(self.source@.subrange(start as int, i as int), '.'),
                n <= i - start,
            decreases end - i,
        {
            assert(self.source@.subrange(start as int, i + 1).drop_last()
                =~= self.source@.subrange(start as int, i as int));
            if self.source[i] == '.' {
                n += 1;
            }
            i += 1;
        }
        n
    }

    /// Moves over a block comment that starts here, counting its newlines.
    fn skip_block_comment(&mut self)
        requires
            old(self).current + 1 < old(self).source@.len(),
            old(self).source@[old(self).current as int] == '/',
            old(self).source@[old(self).current + 1] == '*',
            block_comment(old(self).source@, old(self).current as int, 0, old(self).line as int).1
                <= u32::MAX,
        ensures
            (final(self).current as int, final(self).line as int) == block_comment(
                old(self).source@,
                old(self).current as int,
                0,
                old(self).line as int,
            ),
            final(self).source == old(self).source,
            final(self).encountered_error == old(self).encountered_error,
            final(self).errors == old(self).errors,
    {
        let ghost start = self.current as int;
        let ghost target = block_comment(self.source@, start, 0, self.line as int);
        let mut depth: usize = 0;
        loop
            invariant_except_break
                depth == 0 ==> self.current == start,
                block_comment(self.source@, self.current as int, depth as int, self.line as int)
                    == target,
            invariant
                self.source == old(self).source,
                self.encountered_error == old(self).encountered_error,
                self.errors == old(self).errors,
                start <= self.current <= self.source@.len(),
                depth <= self.current - start,
                0 <= start,
                start + 1 < self.source@.len(),
                self.source@[start] == '/',
                target.1 <= u32::MAX,
            ensures
                (self.current as int, self.line as int) == target,
                self.source == old(self).source,
                self.encountered_error == old(self).encountered_error,
                self.errors == old(self).errors,
            decreases self.source@.len() - self.current,
        {
            if self.eof() {
                break;
            }
            let ghost pos = self.current as int;
            let ghost d0 = depth as int;
            let ghost l0 = self.line as int;
            let n = self.source.len();
            if self.peek() == '/' && self.peek_at(1) == '*' {
                assert(depth < n);
                self.consume();
                depth += 1;
            } else if self.peek() == '*' && self.peek_at(1) == '/' {
                self.consume();
                depth -= 1;
            } else if self.peek() == '\n' {
                proof {
                    lemma_block_comment(self.source@, pos + 1, d0, l0 + 1);
                }
                self.line += 1;
            }
            self.consume();
            if depth == 0 {
                break;
            }
        }
    }

    /// One step of the lexer at the current position: records the token or
    /// the error found there, if any, and moves past it.
    fn scan_one(&mut self, tokens: &mut Vec<Token>)
        requires
            old(self).current < old(self).source@.len(),
            scan_step(old(self).source@, old(self).current as int, old(self).line as int).line
                <= u32::MAX,
        ensures
            ({
                let step = scan_step(old(self).source@, old(self).current as int, old(self).line as int);
                &&& final(self).current == step.next
                &&& final(self).line == step.line
                &&& token_views(final(tokens)@) == token_views(old(tokens)@) + opt_seq(step.token)
                &&& error_views(final(self).errors@) == error_views(old(self).errors@) + opt_seq(
                    step.error,
                )
                &&& final(self).encountered_error == (old(self).encountered_error
                    || step.error is Some)
            }),
            final(self).source == old(self).source,
    {
        let ghost src = self.source@;
        let ghost pos = self.current as int;
        let ghost old_tokens = token_views(tokens@);
        let ghost old_errors = error_views(self.errors@);
        proof {
            lemma_scan_step(src, pos, self.line as int);
            lemma_run_end(src, pos, RunKind::Comment);
            lemma_run_end(src, pos + 1, RunKind::Text);
            lemma_run_end(src, pos, RunKind::Numeral);
            lemma_run_end(src, pos, RunKind::Word);
        }
        let n = self.source.len();
        let c = self.peek();
        let d = self.peek_at(1);
        if let Some(kind) = double_kind_of(c, d) {
            let a = self.consume();
            let b = self.consume();
            let mut lexeme = String::new();
            push_char(&mut lexeme, a);
            push_char(&mut lexeme, b);
            assert(lexeme@ =~= seq![c, d]);
            let tok = Token { token_type: kind, lexeme, literal: null_text(), line: self.line };
            tokens.push(tok);
            assert(token_views(tokens@) =~= old_tokens.push(tok@));
            assert(error_views(self.errors@) =~= old_errors);
            return;
        }
        if c == '/' && d == '/' {
            self.advance_run(RunKind::Comment);
            assert(error_views(self.errors@) =~= old_errors);
            assert(token_views(tokens@) =~= old_tokens);
            return;
        }
        if c == '/' && d == '*' {
            self.skip_block_comment();
            assert(error_views(self.errors@) =~= old_errors);
            assert(token_views(tokens@) =~= old_tokens);
            return;
        }
        if let Some(kind) = single_kind_of(c) {
            let a = self.consume();
            let mut lexeme = String::new();
            push_char(&mut lexeme, a);
            assert(lexeme@ =~= seq![c]);
            let tok = Token { token_type: kind, lexeme, literal: null_text(), line: self.line };
            tokens.push(tok);
            assert(token_views(tokens@) =~= old_tokens.push(tok@));
            assert(error_views(self.errors@) =~= old_errors);
            return;
        }
        if c == ' ' || c == '\t' {
            self.consume();
            assert(error_views(self.errors@) =~= old_errors);
            assert(token_views(tokens@) =~= old_tokens);
            return;
        }
        if c == '\n' {
            self.line += 1;
            self.consume();
            assert(error_views(self.errors@) =~= old_errors);
            assert(token_views(tokens@) =~= old_tokens);
            return;
        }
        if c == '"' {
            self.consume();
            let start = self.current;
            self.advance_run(RunKind::Text);
            if self.eof() {
                let e = LexError::UnterminatedString { line: self.line };
                self.errors.push(e);
                self.encountered_error = true;
                assert(error_views(self.errors@) =~= old_errors.push(e@));
                assert(token_views(tokens@) =~= old_tokens);
            } else {
                let body = self.text(start, self.current);
                self.consume();
                let mut lexeme = String::new();
                push_char(&mut lexeme, '"');
                lexeme.append(body.as_str());
                push_char(&mut lexeme, '"');
                assert(lexeme@ =~= seq!['"'] + body@ + seq!['"']);
                let tok = Token { token_type: TokenType::String, lexeme, literal: body, line: self.line };
                tokens.push(tok);
                assert(token_views(tokens@) =~= old_tokens.push(tok@));
                assert(error_views(self.errors@) =~= old_errors);
            }
            return;
        }
        if is_ascii_digit(c) {
            let start = self.current;
            self.advance_run(RunKind::Numeral);
            let numeral = self.text(start, self.current);
            if self.dots(start, self.current) <= 1 {
                let tok = Token {
                    token_type: TokenType::Number,
                    lexeme: numeral.clone(),
                    literal: numeral,
                    line: self.line,
                };
                tokens.push(tok);
                assert(token_views(tokens@) =~= old_tokens.push(tok@));
                assert(error_views(self.errors@) =~= old_errors);
            } else {
                let e = LexError::InvalidNumber { line: self.line, text: numeral };
                self.errors.push(e);
                self.encountered_error = true;
                assert(error_views(self.errors@) =~= old_errors.push(e@));
                assert(token_views(tokens@) =~= old_tokens);
            }
            return;
        }
        if c == '_' || ('a' <= c && c <= 'z') || ('A' <= c && c <= 'Z') {
            let start = self.current;
            self.advance_run(RunKind::Word);
            let word = self.text(start, self.current);
            let kind = match keyword_of(&word) {
                Some(k) => k,
                None => TokenType::Identifier,
            };
            let tok = Token { token_type: kind, lexeme: word, literal: null_text(), line: self.line };
            tokens.push(tok);
            assert(token_views(tokens@) =~= old_tokens.push(tok@));
            assert(error_views(self.errors@) =~= old_errors);
            return;
        }
        let ch = self.consume();
        let e = LexError::UnexpectedCharacter { line: self.line, character: ch };
        self.errors.push(e);
        self.encountered_error = true;
        assert(error_views(self.errors@) =~= old_errors.push(e@));
        assert(token_views(tokens@) =~= old_tokens);
    }

    /// Reads the text from the current position to its end. Returns the
    /// tokens read, the end-of-file token last; records each error met on
    /// the way, in order, and whether there was any.
    pub fn analyze(&mut self) -> (tokens: Vec<Token>)
        requires
            scan(old(self).source@, old(self).current as int, old(self).line as int).2 <= u32::MAX,
        ensures
            token_views(tokens@) == tokens_from(
                old(self).source@,
                old(self).current as int,
                old(self).line as int,
            ),
            error_views(final(self).errors@) == error_views(old(self).errors@) + scan(
                old(self).source@,
                old(self).current as int,
                old(self).line as int,
            ).1,
            final(self).encountered_error == (old(self).encountered_error || scan(
                old(self).source@,
                old(self).current as int,
                old(self).line as int,
            ).1.len() > 0),
            final(self).line == scan(old(self).source@, old(self).current as int, old(self).line as int).2,
            final(self).source == old(self).source,
            final(self).current == if old(self).current < old(self).source@.len() {
                old(self).source@.len() as int
            } else {
                old(self).current as int
            },
    {
        let ghost src = self.source@;
        let ghost target = scan(src, self.current as int, self.line as int);
        let ghost old_errors = error_views(self.errors@);
        let ghost start = self.current;
        let mut tokens: Vec<Token> = Vec::new();
        proof {
            assert(token_views(tokens@) =~= Seq::empty());
            assert(old_errors + scan(src, self.current as int, self.line as int).1 == old_errors + target.1);
        }
        while !self.eof()
            invariant
                self.source == old(self).source,
                self.source@ == src,
                start < src.len() ==> start <= self.current <= src.len(),
                start >= src.len() ==> self.current == start,
                token_views(tokens@) + scan(src, self.current as int, self.line as int).0 == target.0,
                error_views(self.errors@) + scan(src, self.current as int, self.line as int).1
                    == old_errors + target.1,
                scan(src, self.current as int, self.line as int).2 == target.2,
                target.2 <= u32::MAX,
                self.errors@.len() >= old(self).errors@.len(),
                self.encountered_error == (old(self).encountered_error || self.errors@.len()
                    > old(self).errors@.len()),
            decreases src.len() - self.current,
        {
            let ghost pos = self.current as int;
            let ghost line = self.line as int;
            let ghost before_tokens = token_views(tokens@);
            let ghost before_errors = error_views(self.errors@);
            proof {
                lemma_scan_step(src, pos, line);
                let step = scan_step(src, pos, line);
                lemma_scan_line(src, step.next, step.line);
            }
            let ghost before_len = self.errors@.len();
            self.scan_one(&mut tokens);
            proof {
                assert(before_errors.len() == before_len);
                assert(error_views(self.errors@).len() == self.errors@.len());
                let step = scan_step(src, pos, line);
                assert(opt_seq(step.error).len() == if step.error is Some { 1int } else { 0int });
                let rest = scan(src, step.next, step.line);
                assert(scan(src, pos, line).0 == opt_seq(step.token) + rest.0);
                assert(before_tokens + (opt_seq(step.token) + rest.0) =~= (before_tokens
                    + opt_seq(step.token)) + rest.0);
                assert(before_errors + (opt_seq(step.error) + rest.1) =~= (before_errors
                    + opt_seq(step.error)) + rest.1);
            }
        }
        let eof = Token {
            token_type: TokenType::Eof,
            lexeme: String::new(),
            literal: null_text(),
            line: self.line,
        };
        let ghost before_tokens = token_views(tokens@);
        tokens.push(eof);
        proof {
            assert(scan(src, self.current as int, self.line as int).0 =~= Seq::empty());
            assert(before_tokens =~= target.0);
            assert(token_views(tokens@) =~= target.0.push(eof@));
            assert(error_views(self.errors@) =~= old_errors + target.1);
        }
        tokens
    }
}

impl LexError {
    /// The text this error is reported with.
    pub fn message(&self) -> (r: String)
        ensures
            r@ == error_message(self@),
    {
        let mut r = String::from_str("[line ");
        match self {
            LexError::UnterminatedString { line } => {
                push_decimal(&mut r, *line);
                r.append("] Error: Unterminated string.");
            },
            LexError::InvalidNumber { line, text } => {
                push_decimal(&mut r, *line);
                r.append("] Error: Invalid number literal: ");
                r.append(text.as_str());
            },
            LexError::UnexpectedCharacter { line, character } => {
                push_decimal(&mut r, *line);
                r.append("] Error: Unexpected character: ");
                push_char(&mut r, *character);
            },
        }
        r
    }
}

/// The token of a step, if any, is the text the step read, is never the
/// end-of-file token, and is on the step's line.
proof fn lemma_step_token(src: Seq<char>, pos: int, line: int)
    requires
        0 <= pos < src.len(),
    ensures
        scan_step(src, pos, line).token matches Some(tok) ==> {
            &&& tok.lexeme == src.subrange(pos, scan_step(src, pos, line).next)
            &&& tok.token_type != TokenType::Eof
            &&& tok.line == line as u32
            &&& scan_step(src, pos, line).line == line
        },
{
    let c = src[pos];
    let d = char_at(src, pos + 1);
    let step = scan_step(src, pos, line);
    lemma_run_end(src, pos + 1, RunKind::Text);
    lemma_run_end(src, pos, RunKind::Numeral);
    lemma_run_end(src, pos, RunKind::Word);
    if double_kind(c, d) is Some {
        assert(src.subrange(pos, pos + 2) =~= seq![c, d]);
    } else if c == '/' && (d == '/' || d == '*') {
    } else if single_kind(c) is Some {
        assert(src.subrange(pos, pos + 1) =~= seq![c]);
    } else if c == '"' {
        let end = run_end(src, pos + 1, RunKind::Text);
        if end < src.len() {
            assert(src.subrange(pos, end + 1) =~= seq!['"'] + src.subrange(pos + 1, end) + seq!['"']);
        }
    } else if is_digit(c) {
    } else if is_alpha(c) || c == '_' {
        let w = src.subrange(pos, run_end(src, pos, RunKind::Word));
        match keyword(w) {
            Some(k) => {
                assert(k != TokenType::Eof);
            },
            None => {},
        }
    }
}

/// What a lexer's scan from `pos` reads: no end-of-file token, and each
/// token's text is a piece of the source after `pos`.
proof fn lemma_scan_tokens(src: Seq<char>, pos: int, line: int)
    requires
        0 <= pos,
    ensures
        ({
            let r = scan(src, pos, line);
            &&& forall|i: int| 0 <= i < r.0.len() ==> (#[trigger] r.0[i]).token_type != TokenType::Eof
            &&& forall|i: int|
                0 <= i < r.0.len() ==> exists|a: int, b: int|
                    pos <= a <= b <= src.len() && (#[trigger] r.0[i]).lexeme == src.subrange(a, b)
        }),
    decreases src.len() - pos,
{
    if pos < src.len() {
        let step = scan_step(src, pos, line);
        lemma_scan_step(src, pos, line);
        lemma_step_token(src, pos, line);
        lemma_scan_tokens(src, step.next, step.line);
        let rest = scan(src, step.next, step.line);
        let r = scan(src, pos, line);
        match step.token {
            Some(tok) => {
                assert(r.0[0] == tok);
                assert forall|i: int| 0 <= i < r.0.len() implies exists|a: int, b: int|
                    pos <= a <= b <= src.len() && (#[trigger] r.0[i]).lexeme == src.subrange(
                        a,
                        b,
                    ) by {
                    if i == 0 {
                        assert(tok.lexeme == src.subrange(pos, step.next));
                    } else {
                        assert(r.0[i] == rest.0[i - 1]);
                    }
                }
                assert forall|i: int| 0 <= i < r.0.len() implies (#[trigger] r.0[i]).token_type
                    != TokenType::Eof by {
                    if i > 0 {
                        assert(r.0[i] == rest.0[i - 1]);
                    }
                }
            },
            None => {
                assert(r.0 =~= rest.0);
            },
        }
    }
}

/// The lines of the tokens a scan reads lie between the starting line and the
/// line reached, and never go down from one token to the next.
proof fn lemma_scan_lines(src: Seq<char>, pos: int, line: int)
    requires
        0 <= pos,
        0 <= line,
        scan(src, pos, line).2 <= u32::MAX,
    ensures
        ({
            let r = scan(src, pos, line);
            &&& forall|i: int| 0 <= i < r.0.len() ==> line <= (#[trigger] r.0[i]).line <= r.2
            &&& forall|i: int, j: int|
                0 <= i <= j < r.0.len() ==> (#[trigger] r.0[i]).line <= (#[trigger] r.0[j]).line
        }),
    decreases src.len() - pos,
{
    lemma_scan_line(src, pos, line);
    if pos < src.len() {
        let step = scan_step(src, pos, line);
        lemma_scan_step(src, pos, line);
        lemma_step_token(src, pos, line);
        let rest = scan(src, step.next, step.line);
        lemma_scan_line(src, step.next, step.line);
        lemma_scan_lines(src, step.next, step.line);
        let r = scan(src, pos, line);
        match step.token {
            Some(tok) => {
                assert(r.0[0] == tok);
                assert forall|i: int| 0 < i < r.0.len() implies r.0[i] == rest.0[i - 1] by {}
                assert forall|i: int| 0 <= i < r.0.len() implies line <= (#[trigger] r.0[i]).line <= r.2 by {
                    if i > 0 {
                        assert(r.0[i] == rest.0[i - 1]);
                    }
                }
                assert forall|i: int, j: int| 0 <= i <= j < r.0.len() implies (#[trigger] r.0[i]).line
                    <= (#[trigger] r.0[j]).line by {
                    if i > 0 {
                        assert(r.0[i] == rest.0[i - 1]);
                    }
                    if j > 0 {
                        assert(r.0[j] == rest.0[j - 1]);
                    }
                }
            },
            None => {
                assert(r.0 =~= rest.0);
            },
        }
    }
}

/// Lexing ends the tokens with exactly one end-of-file token: it comes last
/// and nowhere before. So whatever the lexer gives, the parser can read.
pub proof fn law_tokens_end_with_eof(src: Seq<char>)
    ensures
        tokenize(src).last().token_type == TokenType::Eof,
        forall|i: int| 0 <= i < tokenize(src).len() - 1 ==> (#[trigger] tokenize(src)[i]).token_type
            != TokenType::Eof,
{
    lemma_scan_tokens(src, 0, 1);
    let r = scan(src, 0, 1);
    assert forall|i: int| 0 <= i < tokenize(src).len() - 1 implies (#[trigger] tokenize(
        src,
    )[i]).token_type != TokenType::Eof by {
        assert(tokenize(src)[i] == r.0[i]);
    }
}

/// Every token's text is a piece of the source: what it was read from (the
/// end-of-file token has the empty text).
pub proof fn law_lexemes_come_from_source(src: Seq<char>, i: int)
    requires
        0 <= i < tokenize(src).len(),
    ensures
        exists|a: int, b: int| 0 <= a <= b <= src.len() && tokenize(src)[i].lexeme == src.subrange(a, b),
{
    lemma_scan_tokens(src, 0, 1);
    let r = scan(src, 0, 1);
    if i == r.0.len() {
        assert(tokenize(src)[i].lexeme =~= src.subrange(src.len() as int, src.len() as int));
    } else {
        assert(tokenize(src)[i] == r.0[i]);
    }
}

/// A text with two dots holds at least two dots.
proof fn lemma_two_dots(s: Seq<char>, i: int, j: int)
    requires
        0 <= i < j < s.len(),
        s[i] == '.',
        s[j] == '.',
    ensures
        count_char(s, '.') >= 2,
{
    let n = s.len() as int;
    lemma_count_split(s, 0, i, n, '.');
    lemma_count_split(s, i, i + 1, n, '.');
    lemma_count_split(s, i + 1, j, n, '.');
    lemma_count_split(s, j, j + 1, n, '.');
    lemma_count_one(s, i, '.');
    lemma_count_one(s, j, '.');
    assert(s.subrange(0, n) =~= s);
}

/// A numeral the lexer accepts (a digit, then digits and at most one dot)
/// reads as a number.
proof fn lemma_numeral_reads(n: Seq<char>)
    requires
        n.len() > 0,
        is_digit(n[0]),
        forall|j: int| 0 <= j < n.len() ==> keeps(RunKind::Numeral, #[trigger] n[j]),
        count_char(n, '.') <= 1,
    ensures
        is_number_text(n),
{
    assert(unsigned(n) == n);
    assert forall|a: int, b: int| 0 <= a < b < n.len() implies !(#[trigger] n[a] == '.'
        && #[trigger] n[b] == '.') by {
        if n[a] == '.' && n[b] == '.' {
            lemma_two_dots(n, a, b);
        }
    }
    assert forall|a: int| 0 <= a < n.len() implies is_digit(#[trigger] n[a]) || n[a] == '.' by {
        assert(keeps(RunKind::Numeral, n[a]));
    }
    assert forall|a: int| 0 <= a < n.len() implies !is_exp_mark(#[trigger] n[a]) by {
        assert(keeps(RunKind::Numeral, n[a]));
    }
    assert(is_mantissa(n));
}

/// The number token of one lexer step, if it reads one, reads as a number.
proof fn lemma_step_number(src: Seq<char>, pos: int, line: int)
    requires
        0 <= pos < src.len(),
    ensures
        scan_step(src, pos, line).token matches Some(tok) ==> (tok.token_type
            == TokenType::Number ==> is_number_text(tok.literal)),
{
    let c = src[pos];
    let d = char_at(src, pos + 1);
    if !(double_kind(c, d) is Some) && !(c == '/' && (d == '/' || d == '*')) && !(single_kind(
        c,
    ) is Some) && c != ' ' && c != '\t' && c != '\n' && c != '"' && is_digit(c) {
        lemma_run_end(src, pos, RunKind::Numeral);
        let end = run_end(src, pos, RunKind::Numeral);
        let n = src.subrange(pos, end);
        if count_char(n, '.') <= 1 {
            assert forall|j: int| 0 <= j < n.len() implies keeps(RunKind::Numeral, #[trigger] n[j]) by {
                assert(n[j] == src[pos + j]);
            }
            lemma_numeral_reads(n);
        }
    }
}

/// Every number token a scan reads reads as a number.
proof fn lemma_scan_numbers(src: Seq<char>, pos: int, line: int)
    requires
        0 <= pos,
    ensures
        forall|i: int|
            0 <= i < scan(src, pos, line).0.len() && (#[trigger] scan(src, pos, line).0[i]).token_type
                == TokenType::Number ==> is_number_text(scan(src, pos, line).0[i].literal),
    decreases src.len() - pos,
{
    if pos < src.len() {
        let step = scan_step(src, pos, line);
        lemma_scan_step(src, pos, line);
        lemma_step_number(src, pos, line);
        if pos < step.next <= src.len() {
            lemma_scan_numbers(src, step.next, step.line);
            let rest = scan(src, step.next, step.line);
            let r = scan(src, pos, line);
            assert forall|i: int|
                0 <= i < r.0.len() && (#[trigger] r.0[i]).token_type == TokenType::Number implies
                is_number_text(r.0[i].literal) by {
                match step.token {
                    Some(tok) => {
                        if i > 0 {
                            assert(r.0[i] == rest.0[i - 1]);
                        }
                    },
                    None => {
                        assert(r.0[i] == rest.0[i]);
                    },
                }
            }
        }
    }
}

/// Every number token the lexer reads holds text that reads as a number, so
/// the parser refuses no number the lexer gives it.
pub proof fn law_lexed_numbers_read(src: Seq<char>, i: int)
    requires
        0 <= i < tokenize(src).len(),
        tokenize(src)[i].token_type == TokenType::Number,
    ensures
        is_number_text(tokenize(src)[i].literal),
{
    lemma_scan_numbers(src, 0, 1);
    let r = scan(src, 0, 1);
    if i < r.0.len() {
        assert(tokenize(src)[i] == r.0[i]);
    }
}

/// Every ASCII letter, upper or lower case, or `_` starts a word: the lexer
/// reads from there the longest run of letters, digits and underscores as
/// one token, a keyword's kind when the run is a keyword and an identifier
/// otherwise, on the line it is on, and meets no error.
pub proof fn law_letters_start_words(src: Seq<char>, pos: int, line: int)
    requires
        0 <= pos < src.len(),
        ('a' <= src[pos] <= 'z') || ('A' <= src[pos] <= 'Z') || src[pos] == '_',
    ensures
        ({
            let step = scan_step(src, pos, line);
            &&& step.error is None
            &&& step.line == line
            &&& pos < step.next <= src.len()
            &&& forall|j: int|
                pos <= j < step.next ==> ('a' <= #[trigger] src[j] <= 'z') || ('A' <= src[j] <= 'Z')
                    || ('0' <= src[j] <= '9') || src[j] == '_'
            &&& step.next < src.len() ==> !(('a' <= src[step.next] <= 'z') || ('A' <= src[step.next]
                <= 'Z') || ('0' <= src[step.next] <= '9') || src[step.next] == '_')
            &&& step.token matches Some(tok) && tok.lexeme == src.subrange(pos, step.next)
                && tok.line == line as u32 && tok.token_type == match keyword(tok.lexeme) {
                Some(k) => k,
                None => TokenType::Identifier,
            }
        }),
{
    lemma_run_end(src, pos, RunKind::Word);
}

/// A capitalized word prints, in upper snake case, as the word in upper case.
proof fn lemma_capitalized_upper_snake(s: Seq<char>)
    requires
        s.len() > 0,
        'A' <= s[0] <= 'Z',
        forall|i: int| 1 <= i < s.len() ==> 'a' <= #[trigger] s[i] <= 'z',
    ensures
        upper_snake(s) == s.map_values(|c: char| ascii_upper(c)),
    decreases s.len(),
{
    if s.len() > 1 {
        let r = s.drop_last();
        lemma_capitalized_upper_snake(r);
        assert(s.map_values(|c: char| ascii_upper(c)) =~= r.map_values(|c: char| ascii_upper(c)).push(
            ascii_upper(s.last()),
        ));
    } else {
        assert(s.drop_last() =~= Seq::<char>::empty());
        assert(upper_snake(Seq::<char>::empty()) =~= Seq::<char>::empty());
        assert(s.map_values(|c: char| ascii_upper(c)) =~= seq![ascii_upper(s[0])]);
    }
}

/// A keyword's token kind prints as the keyword itself in upper case.
pub proof fn law_keywords_print_as_written(w: Seq<char>)
    requires
        keyword(w) is Some,
    ensures
        type_display(keyword(w)->0) == w.map_values(|c: char| ascii_upper(c)),
{
    if w == "and"@ {
        reveal_strlit("and");
        reveal_strlit("And");
        assert("And"@ =~= seq!['A', 'n', 'd']);
        assert("and"@ =~= seq!['a', 'n', 'd']);
        lemma_capitalized_upper_snake("And"@);
    }
    if w == "class"@ {
        reveal_strlit("class");
        reveal_strlit("Class");
        assert("Class"@ =~= seq!['C', 'l', 'a', 's', 's']);
        assert("class"@ =~= seq!['c', 'l', 'a', 's', 's']);
        lemma_capitalized_upper_snake("Class"@);
    }
    if w == "else"@ {
        reveal_strlit("else");
        reveal_strlit("Else");
        assert("Else"@ =~= seq!['E', 'l', 's', 'e']);
        assert("else"@ =~= seq!['e', 'l', 's', 'e']);
        lemma_capitalized_upper_snake("Else"@);
    }
    if w == "false"@ {
        reveal_strlit("false");
        reveal_strlit("False");
        assert("False"@ =~= seq!['F', 'a', 'l', 's', 'e']);
        assert("false"@ =~= seq!['f', 'a', 'l', 's', 'e']);
        lemma_capitalized_upper_snake("False"@);
    }
    if w == "for"@ {
        reveal_strlit("for");
        reveal_strlit("For");
        assert("For"@ =~= seq!['F', 'o', 'r']);
        assert("for"@ =~= seq!['f', 'o', 'r']);
        lemma_capitalized_upper_snake("For"@);
    }
    if w == "fun"@ {
        reveal_strlit("fun");
        reveal_strlit("Fun");
        assert("Fun"@ =~= seq!['F', 'u', 'n']);
        assert("fun"@ =~= seq!['f', 'u', 'n']);
        lemma_capitalized_upper_snake("Fun"@);
    }
    if w == "if"@ {
        reveal_strlit("if");
        reveal_strlit("If");
        assert("If"@ =~= seq!['I', 'f']);
        assert("if"@ =~= seq!['i', 'f']);
        lemma_capitalized_upper_snake("If"@);
    }
    if w == "nil"@ {
        reveal_strlit("nil");
        reveal_strlit("Nil");
        assert("Nil"@ =~= seq!['N', 'i', 'l']);
        assert("nil"@ =~= seq!['n', 'i', 'l']);
        lemma_capitalized_upper_snake("Nil"@);
    }
    if w == "or"@ {
        reveal_strlit("or");
        reveal_strlit("Or");
        assert("Or"@ =~= seq!['O', 'r']);
        assert("or"@ =~= seq!['o', 'r']);
        lemma_capitalized_upper_snake("Or"@);
    }
    if w == "print"@ {
        reveal_strlit("print");
        reveal_strlit("Print");
        assert("Print"@ =~= seq!['P', 'r', 'i', 'n', 't']);
        assert("print"@ =~= seq!['p', 'r', 'i', 'n', 't']);
        lemma_capitalized_upper_snake("Print"@);
    }
    if w == "return"@ {
        reveal_strlit("return");
        reveal_strlit("Return");
        assert("Return"@ =~= seq!['R', 'e', 't', 'u', 'r', 'n']);
        assert("return"@ =~= seq!['r', 'e', 't', 'u', 'r', 'n']);
        lemma_capitalized_upper_snake("Return"@);
    }
    if w == "super"@ {
        reveal_strlit("super");
        reveal_strlit("Super");
        assert("Super"@ =~= seq!['S', 'u', 'p', 'e', 'r']);
        assert("super"@ =~= seq!['s', 'u', 'p', 'e', 'r']);
        lemma_capitalized_upper_snake("Super"@);
    }
    if w == "this"@ {
        reveal_strlit("this");
        reveal_strlit("This");
        assert("This"@ =~= seq!['T', 'h', 'i', 's']);
        assert("this"@ =~= seq!['t', 'h', 'i', 's']);
        lemma_capitalized_upper_snake("This"@);
    }
    if w == "true"@ {
        reveal_strlit("true");
        reveal_strlit("True");
        assert("True"@ =~= seq!['T', 'r', 'u', 'e']);
        assert("true"@ =~= seq!['t', 'r', 'u', 'e']);
        lemma_capitalized_upper_snake("True"@);
    }
    if w == "var"@ {
        reveal_strlit("var");
        reveal_strlit("Var");
        assert("Var"@ =~= seq!['V', 'a', 'r']);
        assert("var"@ =~= seq!['v', 'a', 'r']);
        lemma_capitalized_upper_snake("Var"@);
    }
    if w == "while"@ {
        reveal_strlit("while");
        reveal_strlit("While");
        assert("While"@ =~= seq!['W', 'h', 'i', 'l', 'e']);
        assert("while"@ =~= seq!['w', 'h', 'i', 'l', 'e']);
        lemma_capitalized_upper_snake("While"@);
    }
}

/// The lines of the tokens never go down: each token is on a line no
/// earlier than the one before it, starting from line 1, up to the line the
/// end-of-file token is on. (For texts whose lines fit in `u32`.)
pub proof fn law_token_lines_ascend(src: Seq<char>, i: int, j: int)
    requires
        scan(src, 0, 1).2 <= u32::MAX,
        0 <= i <= j < tokenize(src).len(),
    ensures
        1 <= tokenize(src)[i].line <= tokenize(src)[j].line,
{
    lemma_scan_lines(src, 0, 1);
    lemma_scan_line(src, 0, 1);
    let r = scan(src, 0, 1);
    let toks = tokenize(src);
    if j == r.0.len() {
        assert(toks[j].line == r.2 as u32);
        if i < j {
            assert(toks[i] == r.0[i]);
        }
    } else {
        assert(toks[i] == r.0[i]);
        assert(toks[j] == r.0[j]);
    }
}

/// A block comment adds at most one line per character it reads.
proof fn lemma_block_comment_lines(src: Seq<char>, pos: int, depth: int, line: int)
    requires
        0 <= pos <= src.len(),
    ensures
        block_comment(src, pos, depth, line).1 - line <= block_comment(src, pos, depth, line).0 - pos,
    decreases src.len() - pos,
{
    if pos < src.len() {
        let c = src[pos];
        let d = char_at(src, pos + 1);
        let opens = c == '/' && d == '*';
        let closes = !opens && c == '*' && d == '/';
        let depth2 = if opens {
            depth + 1
        } else if closes {
            depth - 1
        } else {
            depth
        };
        let line2 = if !opens && !closes && c == '\n' {
            line + 1
        } else {
            line
        };
        let next = if opens || closes {
            pos + 2
        } else {
            pos + 1
        };
        if depth2 != 0 {
            lemma_block_comment_lines(src, next, depth2, line2);
        }
    }
}

/// Lexing from `pos` adds at most one line per character left to read. So a
/// text whose length plus starting line fits in `u32` meets the line bound
/// that `Lexer::analyze` asks for.
pub proof fn law_lines_bounded_by_length(src: Seq<char>, pos: int, line: int)
    requires
        0 <= pos <= src.len(),
    ensures
        scan(src, pos, line).2 <= line + (src.len() - pos),
    decreases src.len() - pos,
{
    if pos < src.len() {
        let step = scan_step(src, pos, line);
        lemma_scan_step(src, pos, line);
        lemma_block_comment_lines(src, pos, 0, line);
        assert(step.line - line <= step.next - pos);
        law_lines_bounded_by_length(src, step.next, step.line);
    }
}

proof fn lemma_run_end_shift(src: Seq<char>, pos: int, i: int, kind: RunKind)
    requires
        0 <= pos <= src.len(),
        0 <= i,
    ensures
        run_end(src, pos + i, kind) == run_end(src.subrange(pos, src.len() as int), i, kind) + pos,
    decreases src.len() - pos - i,
{
    let sub = src.subrange(pos, src.len() as int);
    if i < sub.len() {
        assert(sub[i] == src[pos + i]);
        if keeps(kind, sub[i]) {
            lemma_run_end_shift(src, pos, i + 1, kind);
        }
    }
}

proof fn lemma_block_comment_shift(src: Seq<char>, pos: int, i: int, depth: int, line: int)
    requires
        0 <= pos <= src.len(),
        0 <= i,
    ensures
        ({
            let sub = src.subrange(pos, src.len() as int);
            let a = block_comment(src, pos + i, depth, line);
            let b = block_comment(sub, i, depth, line);
            a.0 == b.0 + pos && a.1 == b.1
        }),
    decreases src.len() - pos - i,
{
    let sub = src.subrange(pos, src.len() as int);
    if i < sub.len() {
        assert(sub[i] == src[pos + i]);
        assert(char_at(sub, i + 1) == char_at(src, pos + i + 1));
        let c = sub[i];
        let d = char_at(sub, i + 1);
        let opens = c == '/' && d == '*';
        let closes = !opens && c == '*' && d == '/';
        let depth2 = if opens {
            depth + 1
        } else if closes {
            depth - 1
        } else {
            depth
        };
        let line2 = if !opens && !closes && c == '\n' {
            line + 1
        } else {
            line
        };
        let next = if opens || closes {
            i + 2
        } else {
            i + 1
        };
        if depth2 != 0 {
            lemma_block_comment_shift(src, pos, next, depth2, line2);
        }
    }
}

proof fn lemma_scan_step_shift(src: Seq<char>, pos: int, i: int, line: int)
    requires
        0 <= pos <= src.len(),
        0 <= i < src.len() - pos,
    ensures
        ({
            let sub = src.subrange(pos, src.len() as int);
            let a = scan_step(src, pos + i, line);
            let b = scan_step(sub, i, line);
            a.next == b.next + pos && a.line == b.line && a.token == b.token && a.error == b.error
        }),
{
    let sub = src.subrange(pos, src.len() as int);
    assert(sub[i] == src[pos + i]);
    assert(char_at(sub, i + 1) == char_at(src, pos + i + 1));
    lemma_run_end_shift(src, pos, i, RunKind::Comment);
    lemma_run_end_shift(src, pos, i + 1, RunKind::Text);
    lemma_run_end_shift(src, pos, i, RunKind::Numeral);
    lemma_run_end_shift(src, pos, i, RunKind::Word);
    lemma_block_comment_shift(src, pos, i, 0, line);
    lemma_run_end(sub, i + 1, RunKind::Text);
    lemma_run_end(sub, i, RunKind::Numeral);
    lemma_run_end(sub, i, RunKind::Word);
    let et = run_end(sub, i + 1, RunKind::Text);
    let en = run_end(sub, i, RunKind::Numeral);
    let ew = run_end(sub, i, RunKind::Word);
    assert(src.subrange(pos + i + 1, et + pos) =~= sub.subrange(i + 1, et));
    assert(src.subrange(pos + i, en + pos) =~= sub.subrange(i, en));
    assert(src.subrange(pos + i, ew + pos) =~= sub.subrange(i, ew));
}

proof fn lemma_scan_shift(src: Seq<char>, pos: int, i: int, line: int)
    requires
        0 <= pos <= src.len(),
        0 <= i,
    ensures
        scan(src, pos + i, line) == scan(src.subrange(pos, src.len() as int), i, line),
    decreases src.len() - pos - i,
{
    let sub = src.subrange(pos, src.len() as int);
    if i < sub.len() {
        lemma_scan_step_shift(src, pos, i, line);
        lemma_scan_step(sub, i, line);
        let b = scan_step(sub, i, line);
        lemma_scan_shift(src, pos, b.next, b.line);
    }
}

/// Lexing a text from a position, on some line, reads the same tokens and
/// errors, and reaches the same line, as lexing the rest of the text alone
/// from its start on that line.
pub proof fn law_lexing_resumes(src: Seq<char>, pos: int, line: int)
    requires
        0 <= pos <= src.len(),
    ensures
        scan(src, pos, line) == scan(src.subrange(pos, src.len() as int), 0, line),
        tokens_from(src, pos, line) == tokens_from(src.subrange(pos, src.len() as int), 0, line),
{
    lemma_scan_shift(src, pos, 0, line);
}

/// Counting a character over two adjacent pieces of a text adds up.
proof fn lemma_count_split(s: Seq<char>, a: int, b: int, e: int, c: char)
    requires
        0 <= a <= b <= e <= s.len(),
    ensures
        count_char(s.subrange(a, e), c) == count_char(s.subrange(a, b), c) + count_char(
            s.subrange(b, e),
            c,
        ),
    decreases e - b,
{
    if e > b {
        lemma_count_split(s, a, b, e - 1, c);
        assert(s.subrange(a, e).drop_last() =~= s.subrange(a, e - 1));
        assert(s.subrange(b, e).drop_last() =~= s.subrange(b, e - 1));
    } else {
        assert(s.subrange(b, e) =~= Seq::<char>::empty());
        assert(s.subrange(a, e) =~= s.subrange(a, b));
    }
}

/// Counting a character over a one-character piece of a text.
proof fn lemma_count_one(s: Seq<char>, i: int, c: char)
    requires
        0 <= i < s.len(),
    ensures
        count_char(s.subrange(i, i + 1), c) == if s[i] == c {
            1int
        } else {
            0int
        },
{
    let t = s.subrange(i, i + 1);
    assert(t.drop_last() =~= Seq::<char>::empty());
    assert(t.last() == s[i]);
    assert(count_char(Seq::<char>::empty(), c) == 0);
}

/// A block comment adds one line per newline it reads.
proof fn lemma_block_comment_newlines(src: Seq<char>, pos: int, depth: int, line: int)
    requires
        0 <= pos <= src.len(),
    ensures
        pos <= block_comment(src, pos, depth, line).0 <= src.len(),
        block_comment(src, pos, depth, line).1 - line == count_char(
            src.subrange(pos, block_comment(src, pos, depth, line).0),
            '\n',
        ),
    decreases src.len() - pos,
{
    lemma_block_comment(src, pos, depth, line);
    if pos < src.len() {
        let c = src[pos];
        let d = char_at(src, pos + 1);
        let opens = c == '/' && d == '*';
        let closes = !opens && c == '*' && d == '/';
        let depth2 = if opens {
            depth + 1
        } else if closes {
            depth - 1
        } else {
            depth
        };
        let line2 = if !opens && !closes && c == '\n' {
            line + 1
        } else {
            line
        };
        let next = if opens || closes {
            pos + 2
        } else {
            pos + 1
        };
        lemma_count_one(src, pos, '\n');
        if opens || closes {
            lemma_count_split(src, pos, pos + 1, pos + 2, '\n');
            lemma_count_one(src, pos + 1, '\n');
        }
        if depth2 != 0 {
            lemma_block_comment_newlines(src, next, depth2, line2);
            let end = block_comment(src, next, depth2, line2).0;
            lemma_count_split(src, pos, next, end, '\n');
        }
    } else {
        assert(src.subrange(pos, pos) =~= Seq::<char>::empty());
    }
}

/// Lexing from `pos` adds at most one line per newline left to read (a
/// newline inside a string does not count). So a text with fewer newlines
/// than `u32::MAX` meets the line bound that `Lexer::analyze` asks for.
pub proof fn law_lines_bounded_by_newlines(src: Seq<char>, pos: int, line: int)
    requires
        0 <= pos <= src.len(),
    ensures
        scan(src, pos, line).2 <= line + count_char(src.subrange(pos, src.len() as int), '\n'),
    decreases src.len() - pos,
{
    if pos < src.len() {
        let step = scan_step(src, pos, line);
        lemma_scan_step(src, pos, line);
        lemma_count_split(src, pos, step.next, src.len() as int, '\n');
        let c = src[pos];
        let d = char_at(src, pos + 1);
        if c == '/' && d == '*' && double_kind(c, d) is None && !(c == '/' && d == '/') {
            lemma_block_comment_newlines(src, pos, 0, line);
        }
        if c == '\n' && double_kind(c, d) is None && single_kind(c) is None {
            lemma_count_one(src, pos, '\n');
        }
        assert(step.line - line <= count_char(src.subrange(pos, step.next), '\n'));
        law_lines_bounded_by_newlines(src, step.next, step.line);
    } else {
        assert(src.subrange(pos, src.len() as int) =~= Seq::<char>::empty());
    }
}

} // verus!
