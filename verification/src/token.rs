//! Tokens: their kinds, their fields, and the text a token is printed as.
use vstd::prelude::*;
use crate::text::{ascii_upper, char_is_uppercase, chars_of, is_uppercase, push_char, to_ascii_uppercase};

verus! {

/// The kind of a token.
#[derive(Debug, Clone, Copy, PartialEq, Eq, Structural)]
pub enum TokenType {
    LeftParen,
    RightParen,
    LeftBrace,
    RightBrace,

    Star,
    Dot,
    Comma,
    Semicolon,
    Plus,
    Minus,
    Slash,

    Equal,
    EqualEqual,
    Bang,
    BangEqual,

    Less,
    LessEqual,
    Greater,
    GreaterEqual,

    Identifier,
    String,
    Number,

    And,
    Class,
    Else,
    False,
    Fun,
    For,
    If,
    Nil,
    Or,
    Print,
    Return,
    Super,
    This,
    True,
    Var,
    While,

    Eof,
}

/// A token of the source text: its kind, the text it was read from, its
/// literal value as text, and the line it ends on.
pub struct Token {
    pub token_type: TokenType,
    pub lexeme: String,
    pub literal: String,
    pub line: u32,
}

/// What a token holds, with its strings taken as character sequences.
pub struct TokenView {
    pub token_type: TokenType,
    pub lexeme: Seq<char>,
    pub literal: Seq<char>,
    pub line: u32,
}

impl View for Token {
    type V = TokenView;

    open spec fn view(&self) -> TokenView {
        TokenView {
            token_type: self.token_type,
            lexeme: self.lexeme@,
            literal: self.literal@,
            line: self.line,
        }
    }
}

impl Clone for Token {
    fn clone(&self) -> (r: Self)
        ensures
            r == *self,
    {
        Token {
            token_type: self.token_type,
            lexeme: self.lexeme.clone(),
            literal: self.literal.clone(),
            line: self.line,
        }
    }
}

/// The name of a token kind, as it is written in the enumeration.
pub open spec fn kind_name(t: TokenType) -> Seq<char> {
    match t {
        TokenType::LeftParen => "LeftParen"@,
        TokenType::RightParen => "RightParen"@,
        TokenType::LeftBrace => "LeftBrace"@,
        TokenType::RightBrace => "RightBrace"@,
        TokenType::Star => "Star"@,
        TokenType::Dot => "Dot"@,
        TokenType::Comma => "Comma"@,
        TokenType::Semicolon => "Semicolon"@,
        TokenType::Plus => "Plus"@,
        TokenType::Minus => "Minus"@,
        TokenType::Slash => "Slash"@,
        TokenType::Equal => "Equal"@,
        TokenType::EqualEqual => "EqualEqual"@,
        TokenType::Bang => "Bang"@,
        TokenType::BangEqual => "BangEqual"@,
        TokenType::Less => "Less"@,
        TokenType::LessEqual => "LessEqual"@,
        TokenType::Greater => "Greater"@,
        TokenType::GreaterEqual => "GreaterEqual"@,
        TokenType::Identifier => "Identifier"@,
        TokenType::String => "String"@,
        TokenType::Number => "Number"@,
        TokenType::And => "And"@,
        TokenType::Class => "Class"@,
        TokenType::Else => "Else"@,
        TokenType::False => "False"@,
        TokenType::Fun => "Fun"@,
        TokenType::For => "For"@,
        TokenType::If => "If"@,
        TokenType::Nil => "Nil"@,
        TokenType::Or => "Or"@,
        TokenType::Print => "Print"@,
        TokenType::Return => "Return"@,
        TokenType::Super => "Super"@,
        TokenType::This => "This"@,
        TokenType::True => "True"@,
        TokenType::Var => "Var"@,
        TokenType::While => "While"@,
        TokenType::Eof => "Eof"@,
    }
}

/// Whether `c` counts as an upper-case letter: on ASCII exactly 'A' to 'Z',
/// elsewhere the Unicode `Uppercase` property.
pub open spec fn is_upper(c: char) -> bool {
    if (c as u32) < 128 {
        'A' <= c <= 'Z'
    } else {
        char_is_uppercase(c)
    }
}

/// A PascalCase name in UPPER_SNAKE_CASE: every character is upper-cased
/// (ASCII only), and an underscore goes before each upper-case character
/// but the first.
pub open spec fn upper_snake(s: Seq<char>) -> Seq<char>
    decreases s.len(),
{
    if s.len() == 0 {
        Seq::empty()
    } else {
        let prefix = upper_snake(s.drop_last());
        let c = s.last();
        let with_sep = if is_upper(c) && s.len() > 1 { prefix.push('_') } else { prefix };
        with_sep.push(ascii_upper(c))
    }
}

/// The text a token kind is printed as: its name in UPPER_SNAKE_CASE.
pub open spec fn type_display(t: TokenType) -> Seq<char> {
    upper_snake(kind_name(t))
}

/// The text a token is printed as: its kind, its lexeme and its literal,
/// separated by single spaces.
pub open spec fn token_display(t: TokenView) -> Seq<char> {
    type_display(t.token_type) + " "@ + t.lexeme + " "@ + t.literal
}

fn pascal_to_upper_snake(s: String) -> (r: String)
    ensures
        r@ == upper_snake(s@),
{
    let chars = chars_of(s.as_str());
    let mut result = String::new();
    let mut i: usize = 0;
    while i < chars.len()
        invariant
            i <= chars@.len(),
            chars@ == s@,
            result@ == upper_snake(chars@.take(i as int)),
        decreases chars@.len() - i,
    {
        let ch = chars[i];
        assert(chars@.take(i as int + 1).drop_last() == chars@.take(i as int));
        if is_uppercase(ch) && i != 0 {
            push_char(&mut result, '_');
        }
        push_char(&mut result, to_ascii_uppercase(ch));
        i = i + 1;
    }
    assert(chars@.take(chars@.len() as int) == chars@);
    result
}

impl TokenType {
    /// The name of this kind, as it is written in the enumeration.
    pub fn name(&self) -> (r: String)
        ensures
            r@ == kind_name(*self),
    {
        match self {
            TokenType::LeftParen => String::from_str("LeftParen"),
            TokenType::RightParen => String::from_str("RightParen"),
            TokenType::LeftBrace => String::from_str("LeftBrace"),
            TokenType::RightBrace => String::from_str("RightBrace"),
            TokenType::Star => String::from_str("Star"),
            TokenType::Dot => String::from_str("Dot"),
            TokenType::Comma => String::from_str("Comma"),
            TokenType::Semicolon => String::from_str("Semicolon"),
            TokenType::Plus => String::from_str("Plus"),
            TokenType::Minus => String::from_str("Minus"),
            TokenType::Slash => String::from_str("Slash"),
            TokenType::Equal => String::from_str("Equal"),
            TokenType::EqualEqual => String::from_str("EqualEqual"),
            TokenType::Bang => String::from_str("Bang"),
            TokenType::BangEqual => String::from_str("BangEqual"),
            TokenType::Less => String::from_str("Less"),
            TokenType::LessEqual => String::from_str("LessEqual"),
            TokenType::Greater => String::from_str("Greater"),
            TokenType::GreaterEqual => String::from_str("GreaterEqual"),
            TokenType::Identifier => String::from_str("Identifier"),
            TokenType::String => String::from_str("String"),
            TokenType::Number => String::from_str("Number"),
            TokenType::And => String::from_str("And"),
            TokenType::Class => String::from_str("Class"),
            TokenType::Else => String::from_str("Else"),
            TokenType::False => String::from_str("False"),
            TokenType::Fun => String::from_str("Fun"),
            TokenType::For => String::from_str("For"),
            TokenType::If => String::from_str("If"),
            TokenType::Nil => String::from_str("Nil"),
            TokenType::Or => String::from_str("Or"),
            TokenType::Print => String::from_str("Print"),
            TokenType::Return => String::from_str("Return"),
            TokenType::Super => String::from_str("Super"),
            TokenType::This => String::from_str("This"),
            TokenType::True => String::from_str("True"),
            TokenType::Var => String::from_str("Var"),
            TokenType::While => String::from_str("While"),
            TokenType::Eof => String::from_str("Eof"),
        }
    }

    /// The text this kind is printed as, such as `LEFT_PAREN`.
    pub fn to_display_string(&self) -> (r: String)
        ensures
            r@ == type_display(*self),
    {
        pascal_to_upper_snake(self.name())
    }
}

impl Token {
    /// The text this token is printed as: kind, lexeme and literal,
    /// separated by single spaces.
    pub fn to_display_string(&self) -> (r: String)
        ensures
            r@ == token_display(self@),
    {
        let mut r = self.token_type.to_display_string();
        r.append(" ");
        r.append(self.lexeme.as_str());
        r.append(" ");
        r.append(self.literal.as_str());
        r
    }
}

/// A name in UPPER_SNAKE_CASE holds no ASCII lower-case letter, and is no
/// shorter than the name.
pub proof fn law_upper_snake_has_no_lowercase(s: Seq<char>)
    ensures
        forall|i: int| 0 <= i < upper_snake(s).len() ==> !('a' <= #[trigger] upper_snake(s)[i] <= 'z'),
        upper_snake(s).len() >= s.len(),
    decreases s.len(),
{
    if s.len() > 0 {
        law_upper_snake_has_no_lowercase(s.drop_last());
        let prefix = upper_snake(s.drop_last());
        let c = s.last();
        let with_sep = if is_upper(c) && s.len() > 1 { prefix.push('_') } else { prefix };
        assert(!('a' <= ascii_upper(c) <= 'z'));
        assert forall|i: int| 0 <= i < upper_snake(s).len() implies !('a' <= #[trigger] upper_snake(s)[i] <= 'z') by {
            if i < prefix.len() {
                assert(upper_snake(s)[i] == prefix[i]);
            }
        }
    }
}

/// The text a token kind is printed as holds no lower-case ASCII letter.
pub proof fn law_kind_display_is_upper_case(t: TokenType)
    ensures
        forall|i: int| 0 <= i < type_display(t).len() ==> !('a' <= #[trigger] type_display(t)[i] <= 'z'),
{
    law_upper_snake_has_no_lowercase(kind_name(t));
}


/// Different token kinds have different names.
pub proof fn law_kind_names_distinct(a: TokenType, b: TokenType)
    requires
        kind_name(a) == kind_name(b),
    ensures
        a == b,
{
    reveal_strlit("LeftParen");
    assert("LeftParen"@.len() == 9 && "LeftParen"@[0] == 'L' && "LeftParen"@[1] == 'e' && "LeftParen"@[5] == 'a');
    reveal_strlit("RightParen");
    assert("RightParen"@.len() == 10 && "RightParen"@[0] == 'R' && "RightParen"@[1] == 'i' && "RightParen"@[5] == 'P');
    reveal_strlit("LeftBrace");
    assert("LeftBrace"@.len() == 9 && "LeftBrace"@[0] == 'L' && "LeftBrace"@[1] == 'e' && "LeftBrace"@[5] == 'r');
    reveal_strlit("RightBrace");
    assert("RightBrace"@.len() == 10 && "RightBrace"@[0] == 'R' && "RightBrace"@[1] == 'i' && "RightBrace"@[5] == 'B');
    reveal_strlit("Star");
    assert("Star"@.len() == 4 && "Star"@[0] == 'S' && "Star"@[1] == 't');
    reveal_strlit("Dot");
    assert("Dot"@.len() == 3 && "Dot"@[0] == 'D' && "Dot"@[1] == 'o');
    reveal_strlit("Comma");
    assert("Comma"@.len() == 5 && "Comma"@[0] == 'C' && "Comma"@[1] == 'o');
    reveal_strlit("Semicolon");
    assert("Semicolon"@.len() == 9 && "Semicolon"@[0] == 'S' && "Semicolon"@[1] == 'e' && "Semicolon"@[5] == 'o');
    reveal_strlit("Plus");
    assert("Plus"@.len() == 4 && "Plus"@[0] == 'P' && "Plus"@[1] == 'l');
    reveal_strlit("Minus");
    assert("Minus"@.len() == 5 && "Minus"@[0] == 'M' && "Minus"@[1] == 'i');
    reveal_strlit("Slash");
    assert("Slash"@.len() == 5 && "Slash"@[0] == 'S' && "Slash"@[1] == 'l');
    reveal_strlit("Equal");
    assert("Equal"@.len() == 5 && "Equal"@[0] == 'E' && "Equal"@[1] == 'q');
    reveal_strlit("EqualEqual");
    assert("EqualEqual"@.len() == 10 && "EqualEqual"@[0] == 'E' && "EqualEqual"@[1] == 'q' && "EqualEqual"@[5] == 'E');
    reveal_strlit("Bang");
    assert("Bang"@.len() == 4 && "Bang"@[0] == 'B' && "Bang"@[1] == 'a');
    reveal_strlit("BangEqual");
    assert("BangEqual"@.len() == 9 && "BangEqual"@[0] == 'B' && "BangEqual"@[1] == 'a' && "BangEqual"@[5] == 'q');
    reveal_strlit("Less");
    assert("Less"@.len() == 4 && "Less"@[0] == 'L' && "Less"@[1] == 'e');
    reveal_strlit("LessEqual");
    assert("LessEqual"@.len() == 9 && "LessEqual"@[0] == 'L' && "LessEqual"@[1] == 'e' && "LessEqual"@[5] == 'q');
    reveal_strlit("Greater");
    assert("Greater"@.len() == 7 && "Greater"@[0] == 'G' && "Greater"@[1] == 'r' && "Greater"@[5] == 'e');
    reveal_strlit("GreaterEqual");
    assert("GreaterEqual"@.len() == 12 && "GreaterEqual"@[0] == 'G' && "GreaterEqual"@[1] == 'r' && "GreaterEqual"@[5] == 'e');
    reveal_strlit("Identifier");
    assert("Identifier"@.len() == 10 && "Identifier"@[0] == 'I' && "Identifier"@[1] == 'd' && "Identifier"@[5] == 'i');
    reveal_strlit("String");
    assert("String"@.len() == 6 && "String"@[0] == 'S' && "String"@[1] == 't' && "String"@[5] == 'g');
    reveal_strlit("Number");
    assert("Number"@.len() == 6 && "Number"@[0] == 'N' && "Number"@[1] == 'u' && "Number"@[5] == 'r');
    reveal_strlit("And");
    assert("And"@.len() == 3 && "And"@[0] == 'A' && "And"@[1] == 'n');
    reveal_strlit("Class");
    assert("Class"@.len() == 5 && "Class"@[0] == 'C' && "Class"@[1] == 'l');
    reveal_strlit("Else");
    assert("Else"@.len() == 4 && "Else"@[0] == 'E' && "Else"@[1] == 'l');
    reveal_strlit("False");
    assert("False"@.len() == 5 && "False"@[0] == 'F' && "False"@[1] == 'a');
    reveal_strlit("Fun");
    assert("Fun"@.len() == 3 && "Fun"@[0] == 'F' && "Fun"@[1] == 'u');
    reveal_strlit("For");
    assert("For"@.len() == 3 && "For"@[0] == 'F' && "For"@[1] == 'o');
    reveal_strlit("If");
    assert("If"@.len() == 2 && "If"@[0] == 'I' && "If"@[1] == 'f');
    reveal_strlit("Nil");
    assert("Nil"@.len() == 3 && "Nil"@[0] == 'N' && "Nil"@[1] == 'i');
    reveal_strlit("Or");
    assert("Or"@.len() == 2 && "Or"@[0] == 'O' && "Or"@[1] == 'r');
    reveal_strlit("Print");
    assert("Print"@.len() == 5 && "Print"@[0] == 'P' && "Print"@[1] == 'r');
    reveal_strlit("Return");
    assert("Return"@.len() == 6 && "Return"@[0] == 'R' && "Return"@[1] == 'e' && "Return"@[5] == 'n');
    reveal_strlit("Super");
    assert("Super"@.len() == 5 && "Super"@[0] == 'S' && "Super"@[1] == 'u');
    reveal_strlit("This");
    assert("This"@.len() == 4 && "This"@[0] == 'T' && "This"@[1] == 'h');
    reveal_strlit("True");
    assert("True"@.len() == 4 && "True"@[0] == 'T' && "True"@[1] == 'r');
    reveal_strlit("Var");
    assert("Var"@.len() == 3 && "Var"@[0] == 'V' && "Var"@[1] == 'a');
    reveal_strlit("While");
    assert("While"@.len() == 5 && "While"@[0] == 'W' && "While"@[1] == 'h');
    reveal_strlit("Eof");
    assert("Eof"@.len() == 3 && "Eof"@[0] == 'E' && "Eof"@[1] == 'o');
    match a {
        TokenType::LeftParen => {},
        TokenType::RightParen => {},
        TokenType::LeftBrace => {},
        TokenType::RightBrace => {},
        TokenType::Star => {},
        TokenType::Dot => {},
        TokenType::Comma => {},
        TokenType::Semicolon => {},
        TokenType::Plus => {},
        TokenType::Minus => {},
        TokenType::Slash => {},
        TokenType::Equal => {},
        TokenType::EqualEqual => {},
        TokenType::Bang => {},
        TokenType::BangEqual => {},
        TokenType::Less => {},
        TokenType::LessEqual => {},
        TokenType::Greater => {},
        TokenType::GreaterEqual => {},
        TokenType::Identifier => {},
        TokenType::String => {},
        TokenType::Number => {},
        TokenType::And => {},
        TokenType::Class => {},
        TokenType::Else => {},
        TokenType::False => {},
        TokenType::Fun => {},
        TokenType::For => {},
        TokenType::If => {},
        TokenType::Nil => {},
        TokenType::Or => {},
        TokenType::Print => {},
        TokenType::Return => {},
        TokenType::Super => {},
        TokenType::This => {},
        TokenType::True => {},
        TokenType::Var => {},
        TokenType::While => {},
        TokenType::Eof => {},
    }
}

} // verus!
