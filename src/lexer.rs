use vstd::prelude::*;
use vstd::utf8::{char_is_scalar, encode_scalar, encode_utf8};

verus! {

/// The kinds of token the scanner produces.
#[derive(PartialEq, Eq, Debug, Clone)]
pub enum TokenKind {
    // Single-character tokens
    LeftParen,
    RightParen,
    LeftBrace,
    RightBrace,
    Comma,
    Dot,
    Minus,
    Plus,
    SemiColon,
    Slash,
    Star,
    // One or two character tokens
    Bang,
    BangEqual,
    Equal,
    EqualEqual,
    Greater,
    GreaterEqual,
    Less,
    LessEqual,
    // Literals
    Identifier(String),
    String(String),
    Number(i64),
    // Keywords
    And,
    Class,
    Else,
    False,
    Fun,
    For,
    If,
    Nil,
    Or,
    Print,
    Return,
    Super,
    This,
    True,
    Var,
    While,
}

/// A token as a mathematical value: the text of an identifier or a string literal
/// is a sequence of characters, every other kind stands for itself.
pub enum TokenView {
    Plain(TokenKind),
    Identifier(Seq<char>),
    Str(Seq<char>),
}

impl View for TokenKind {
    type V = TokenView;

    open spec fn view(&self) -> TokenView {
        match self {
            TokenKind::Identifier(s) => TokenView::Identifier(s@),
            TokenKind::String(s) => TokenView::Str(s@),
            _ => TokenView::Plain(*self),
        }
    }
}

/// Why scanning stopped before the end of the text.
#[derive(PartialEq, Eq, Debug, Clone)]
pub enum LexError {
    /// No token starts with the character at the cursor; holds the text from there on,
    /// cut to at most `SNIPPET_LEN` characters.
    UnknownToken(String),
    /// A string literal has no closing quote.
    UnterminatedString,
    /// A run of digits does not fit in an `i64`.
    InvalidNumber,
}

/// A failure as a value: the quoted text is a sequence of characters.
pub enum LexErrorView {
    UnknownToken(Seq<char>),
    UnterminatedString,
    InvalidNumber,
}

impl View for LexError {
    type V = LexErrorView;

    open spec fn view(&self) -> LexErrorView {
        match self {
            LexError::UnknownToken(s) => LexErrorView::UnknownToken(s@),
            LexError::UnterminatedString => LexErrorView::UnterminatedString,
            LexError::InvalidNumber => LexErrorView::InvalidNumber,
        }
    }
}

/// How many characters of the text an unknown-token error quotes at most.
pub const SNIPPET_LEN: usize = 10;

// ---------------------------------------------------------------------------
// Character classes
/// Unicode's `White_Space` property: the characters skipped between tokens.
pub open spec fn is_space_spec(c: char) -> bool {
    ('\u{9}' <= c && c <= '\u{d}') || c == ' ' || c == '\u{85}' || c == '\u{a0}'
        || c == '\u{1680}' || ('\u{2000}' <= c && c <= '\u{200a}') || c == '\u{2028}'
        || c == '\u{2029}' || c == '\u{202f}' || c == '\u{205f}' || c == '\u{3000}'
}

/// The characters skipped between tokens: those with Unicode's `White_Space` property,
/// the same set that `char::is_whitespace` accepts.
fn is_space(c: char) -> (r: bool)
    ensures
        r == is_space_spec(c),
{
    ('\u{9}' <= c && c <= '\u{d}') || c == ' ' || c == '\u{85}' || c == '\u{a0}'
        || c == '\u{1680}' || ('\u{2000}' <= c && c <= '\u{200a}') || c == '\u{2028}'
        || c == '\u{2029}' || c == '\u{202f}' || c == '\u{205f}' || c == '\u{3000}'
}

/// The decimal digits `0` to `9`, the only characters a number is made of.
pub open spec fn is_digit_spec(c: char) -> bool {
    '0' <= c && c <= '9'
}

/// What `char::is_alphabetic` says of `c` (Unicode's `Alphabetic` property).
pub uninterp spec fn alphabetic(c: char) -> bool;

/// What `char::is_numeric` says of `c` (Unicode's general categories `Nd`, `Nl`, `No`).
pub uninterp spec fn numeric(c: char) -> bool;

/// Relies on `char::is_alphabetic`, which decides Unicode's `Alphabetic` property.
#[verifier::external_body]
fn is_alphabetic(c: char) -> (r: bool)
    ensures
        r == alphabetic(c),
{
    c.is_alphabetic()
}

/// Relies on `char::is_numeric`, which decides Unicode's numeric general categories.
#[verifier::external_body]
fn is_numeric(c: char) -> (r: bool)
    ensures
        r == numeric(c),
{
    c.is_numeric()
}

/// A character that can start an identifier.
pub open spec fn is_ident_start(c: char) -> bool {
    c == '_' || alphabetic(c)
}

/// The runs of characters that the sub-scanners consume.
pub enum CharClass {
    Space,
    Digit,
    /// Alphanumeric: what may follow the first character of an identifier.
    Word,
    /// Anything but a double quote: the inside of a string literal.
    NotQuote,
}

pub open spec fn in_class(k: CharClass, c: char) -> bool {
    match k {
        CharClass::Space => is_space_spec(c),
        CharClass::Digit => is_digit_spec(c),
        CharClass::Word => alphabetic(c) || numeric(c),
        CharClass::NotQuote => c != '"',
    }
}

/// Whether `c` is of class `k`.
fn class_holds(k: &CharClass, c: char) -> (r: bool)
    ensures
        r == in_class(*k, c),
{
    match k {
        CharClass::Space => is_space(c),
        CharClass::Digit => '0' <= c && c <= '9',
        CharClass::Word => is_alphabetic(c) || is_numeric(c),
        CharClass::NotQuote => c != '"',
    }
}

/// The length of the longest run of characters of class `k` that starts at `i`.
pub open spec fn run_len(s: Seq<char>, i: int, k: CharClass) -> nat
    decreases s.len() - i,
{
    if 0 <= i < s.len() && in_class(k, s[i]) {
        1 + run_len(s, i + 1, k)
    } else {
        0
    }
}

/// A run ends within the text, and each of its characters is of its class.
pub proof fn lemma_run_len(s: Seq<char>, i: int, k: CharClass)
    requires
        0 <= i <= s.len(),
    ensures
        i + run_len(s, i, k) <= s.len(),
        forall|j: int| i <= j < i + run_len(s, i, k) ==> in_class(k, #[trigger] s[j]),
        run_len(s, i + run_len(s, i, k), k) == 0,
    decreases s.len() - i,
{
    if i < s.len() && in_class(k, s[i]) {
        lemma_run_len(s, i + 1, k);
    }
}

// ---------------------------------------------------------------------------
// Byte lengths
/// How many bytes `c` takes in UTF-8.
pub open spec fn utf8_width(c: char) -> nat {
    if (c as u32) < 0x80 {
        1
    } else if (c as u32) < 0x800 {
        2
    } else if (c as u32) < 0x10000 {
        3
    } else {
        4
    }
}

/// How many bytes `s` takes in UTF-8.
pub open spec fn byte_len(s: Seq<char>) -> nat
    decreases s.len(),
{
    if s.len() == 0 {
        0
    } else {
        byte_len(s.drop_last()) + utf8_width(s.last())
    }
}

/// The byte length of two texts put together is the sum of theirs.
pub proof fn lemma_byte_len_concat(a: Seq<char>, b: Seq<char>)
    ensures
        byte_len(a + b) == byte_len(a) + byte_len(b),
    decreases b.len(),
{
    if b.len() == 0 {
        assert(a + b =~= a);
    } else {
        assert((a + b).drop_last() =~= a + b.drop_last());
        lemma_byte_len_concat(a, b.drop_last());
    }
}

/// The bytes from `i` to `k` are those from `i` to `j` and then those from `j` to `k`.
pub proof fn lemma_byte_len_split(s: Seq<char>, i: int, j: int, k: int)
    requires
        0 <= i <= j <= k <= s.len(),
    ensures
        byte_len(s.subrange(i, k)) == byte_len(s.subrange(i, j)) + byte_len(s.subrange(j, k)),
        byte_len(s.subrange(i, k)) <= byte_len(s),
{
    assert(s.subrange(i, k) =~= s.subrange(i, j) + s.subrange(j, k));
    lemma_byte_len_concat(s.subrange(i, j), s.subrange(j, k));
    assert(s =~= s.subrange(0, i) + s.subrange(i, k) + s.subrange(k, s.len() as int));
    lemma_byte_len_concat(s.subrange(0, i), s.subrange(i, k));
    lemma_byte_len_concat(s.subrange(0, i) + s.subrange(i, k), s.subrange(k, s.len() as int));
}

/// One character takes its own width.
pub proof fn lemma_byte_len_single(c: char)
    ensures
        byte_len(seq![c]) == utf8_width(c),
{
    assert(seq![c].drop_last() =~= Seq::<char>::empty());
    assert(byte_len(Seq::<char>::empty()) == 0);
}

/// The character at `i` takes its own width.
pub proof fn lemma_byte_len_one(s: Seq<char>, i: int)
    requires
        0 <= i < s.len(),
    ensures
        byte_len(s.subrange(i, i + 1)) == utf8_width(s[i]),
{
    assert(s.subrange(i, i + 1) =~= seq![s[i]]);
    lemma_byte_len_single(s[i]);
}

/// `byte_len` is the length of vstd's UTF-8 encoding of the text.
pub proof fn lemma_byte_len_encoding(s: Seq<char>)
    ensures
        byte_len(s) == encode_utf8(s).len(),
    decreases s.len(),
{
    if s.len() > 0 {
        assert(s =~= seq![s[0]] + s.drop_first());
        lemma_byte_len_concat(seq![s[0]], s.drop_first());
        lemma_byte_len_single(s[0]);
        char_is_scalar(s[0]);
        assert(encode_scalar(s[0] as u32).len() == utf8_width(s[0]));
        lemma_byte_len_encoding(s.drop_first());
    }
}

/// The number of bytes that `c` takes in UTF-8.
fn len_utf8(c: char) -> (r: usize)
    ensures
        r == utf8_width(c),
{
    let u = c as u32;
    if u < 0x80 {
        1
    } else if u < 0x800 {
        2
    } else if u < 0x10000 {
        3
    } else {
        4
    }
}

/// Counts the characters of class `k` from `start` on, up to the first one that is not,
/// and the bytes that they take.
fn take_all(chars: &Vec<char>, start: usize, k: CharClass) -> (r: (usize, usize))
    requires
        start <= chars.len(),
        byte_len(chars@) <= usize::MAX,
    ensures
        r.0 == run_len(chars@, start as int, k),
        start + r.0 <= chars.len(),
        r.1 == byte_len(chars@.subrange(start as int, start + r.0)),
{
    let mut i: usize = start;
    let mut bytes: usize = 0;
    assert(chars@.subrange(start as int, start as int).len() == 0);
    while i < chars.len() && class_holds(&k, chars[i])
        invariant
            start <= i <= chars.len(),
            byte_len(chars@) <= usize::MAX,
            run_len(chars@, start as int, k) == (i - start) + run_len(chars@, i as int, k),
            bytes == byte_len(chars@.subrange(start as int, i as int)),
        decreases chars.len() - i,
    {
        assert(chars@.subrange(start as int, i + 1).drop_last() =~= chars@.subrange(start as int, i as int));
        proof {
            lemma_byte_len_split(chars@, start as int, i as int, i + 1);
        }
        bytes = bytes + len_utf8(chars[i]);
        i += 1;
    }
    (i - start, bytes)
}

/// Relies on `String::push`, which appends one character.
#[verifier::external_body]
fn push_char(s: &mut String, c: char)
    ensures
        final(s)@ == old(s)@.push(c),
{
    s.push(c);
}

/// The characters from `start` to `end` as a `String`.
fn text_of(chars: &Vec<char>, start: usize, end: usize) -> (r: String)
    requires
        start <= end <= chars.len(),
    ensures
        r@ == chars@.subrange(start as int, end as int),
{
    let mut r = String::new();
    let mut i: usize = start;
    while i < end
        invariant
            start <= i <= end <= chars.len(),
            r@ == chars@.subrange(start as int, i as int),
        decreases end - i,
    {
        assert(chars@.subrange(start as int, i + 1) =~= chars@.subrange(start as int, i as int).push(chars[i as int]));
        push_char(&mut r, chars[i]);
        i += 1;
    }
    r
}

/// The characters of `s`, in order.
fn chars_of(s: &String) -> (r: Vec<char>)
    ensures
        r@ == s@,
{
    let mut r: Vec<char> = Vec::new();
    for c in it: s.chars()
        invariant
            r@ == it.seq().take(it.index() as int),
    {
        r.push(c);
    }
    r
}


// ---------------------------------------------------------------------------
// Keywords
/// The reserved word spelled by `w`, if `w` is one.
pub open spec fn keyword_of(w: Seq<char>) -> Option<TokenKind> {
    if w == "and"@ {
        Some(TokenKind::And)
    } else if w == "class"@ {
        Some(TokenKind::Class)
    } else if w == "else"@ {
        Some(TokenKind::Else)
    } else if w == "false"@ {
        Some(TokenKind::False)
    } else if w == "fun"@ {
        Some(TokenKind::Fun)
    } else if w == "for"@ {
        Some(TokenKind::For)
    } else if w == "if"@ {
        Some(TokenKind::If)
    } else if w == "nil"@ {
        Some(TokenKind::Nil)
    } else if w == "or"@ {
        Some(TokenKind::Or)
    } else if w == "print"@ {
        Some(TokenKind::Print)
    } else if w == "return"@ {
        Some(TokenKind::Return)
    } else if w == "super"@ {
        Some(TokenKind::Super)
    } else if w == "this"@ {
        Some(TokenKind::This)
    } else if w == "true"@ {
        Some(TokenKind::True)
    } else if w == "var"@ {
        Some(TokenKind::Var)
    } else if w == "while"@ {
        Some(TokenKind::While)
    } else {
        None
    }
}

/// Whether the characters from `start` to `end` spell `word`.
fn spells(chars: &Vec<char>, start: usize, end: usize, word: &str) -> (r: bool)
    requires
        start <= end <= chars.len(),
    ensures
        r == (chars@.subrange(start as int, end as int) == word@),
{
    let n = word.unicode_len();
    if end - start != n {
        return false;
    }
    let mut i: usize = 0;
    while i < n
        invariant
            n == word@.len() == end - start,
            start <= end <= chars.len(),
            i <= n,
            forall|j: int| 0 <= j < i ==> chars@[start + j] == word@[j],
        decreases n - i,
    {
        if chars[start + i] != word.get_char(i) {
            return false;
        }
        i += 1;
    }
    assert(chars@.subrange(start as int, end as int) =~= word@);
    true
}

/// The reserved word spelled by the characters from `start` to `end`, if they spell one.
fn is_keyword(chars: &Vec<char>, start: usize, end: usize) -> (r: Option<TokenKind>)
    requires
        start <= end <= chars.len(),
    ensures
        r == keyword_of(chars@.subrange(start as int, end as int)),
{
    if spells(chars, start, end, "and") {
        Some(TokenKind::And)
    } else if spells(chars, start, end, "class") {
        Some(TokenKind::Class)
    } else if spells(chars, start, end, "else") {
        Some(TokenKind::Else)
    } else if spells(chars, start, end, "false") {
        Some(TokenKind::False)
    } else if spells(chars, start, end, "fun") {
        Some(TokenKind::Fun)
    } else if spells(chars, start, end, "for") {
        Some(TokenKind::For)
    } else if spells(chars, start, end, "if") {
        Some(TokenKind::If)
    } else if spells(chars, start, end, "nil") {
        Some(TokenKind::Nil)
    } else if spells(chars, start, end, "or") {
        Some(TokenKind::Or)
    } else if spells(chars, start, end, "print") {
        Some(TokenKind::Print)
    } else if spells(chars, start, end, "return") {
        Some(TokenKind::Return)
    } else if spells(chars, start, end, "super") {
        Some(TokenKind::Super)
    } else if spells(chars, start, end, "this") {
        Some(TokenKind::This)
    } else if spells(chars, start, end, "true") {
        Some(TokenKind::True)
    } else if spells(chars, start, end, "var") {
        Some(TokenKind::Var)
    } else if spells(chars, start, end, "while") {
        Some(TokenKind::While)
    } else {
        None
    }
}


// ---------------------------------------------------------------------------
// Numbers
/// The value of a run of decimal digits.
pub open spec fn decimal_value(d: Seq<char>) -> int
    decreases d.len(),
{
    if d.len() == 0 {
        0
    } else {
        10 * decimal_value(d.drop_last()) + (d.last() as int - '0' as int)
    }
}

/// The value of the digits from `start` to `end`, or `None` where it exceeds `i64::MAX`.
fn parse_decimal(chars: &Vec<char>, start: usize, end: usize) -> (r: Option<i64>)
    requires
        start <= end <= chars.len(),
        forall|j: int| start <= j < end ==> is_digit_spec(#[trigger] chars@[j]),
    ensures
        r == (if decimal_value(chars@.subrange(start as int, end as int)) <= i64::MAX {
            Some(decimal_value(chars@.subrange(start as int, end as int)) as i64)
        } else {
            None
        }),
{
    let mut acc: i64 = 0;
    let mut overflow = false;
    let mut i: usize = start;
    assert(chars@.subrange(start as int, start as int).len() == 0);
    while i < end
        invariant
            start <= i <= end <= chars.len(),
            forall|j: int| start <= j < end ==> is_digit_spec(#[trigger] chars@[j]),
            overflow ==> decimal_value(chars@.subrange(start as int, i as int)) > i64::MAX,
            !overflow ==> acc == decimal_value(chars@.subrange(start as int, i as int)),
            !overflow ==> acc >= 0,
        decreases end - i,
    {
        let c = chars[i];
        assert(is_digit_spec(chars@[i as int]));
        let d = (c as u32 - '0' as u32) as i64;
        assert(chars@.subrange(start as int, i + 1).drop_last()
            =~= chars@.subrange(start as int, i as int));
        assert(chars@.subrange(start as int, i + 1).last() == c);
        if !overflow {
            match acc.checked_mul(10) {
                Some(m) => match m.checked_add(d) {
                    Some(v) => acc = v,
                    None => overflow = true,
                },
                None => overflow = true,
            }
        }
        i += 1;
    }
    if overflow {
        None
    } else {
        Some(acc)
    }
}


// ---------------------------------------------------------------------------
// Operators
/// The token that `c` stands for on its own, whatever follows it.
pub open spec fn single_char_token(c: char) -> Option<TokenKind> {
    match c {
        '(' => Some(TokenKind::LeftParen),
        ')' => Some(TokenKind::RightParen),
        '{' => Some(TokenKind::LeftBrace),
        '}' => Some(TokenKind::RightBrace),
        ',' => Some(TokenKind::Comma),
        '.' => Some(TokenKind::Dot),
        '-' => Some(TokenKind::Minus),
        '+' => Some(TokenKind::Plus),
        ';' => Some(TokenKind::SemiColon),
        '/' => Some(TokenKind::Slash),
        '*' => Some(TokenKind::Star),
        _ => None,
    }
}

/// The token that `c` stands for on its own, if any.
fn single_char(c: char) -> (r: Option<TokenKind>)
    ensures
        r == single_char_token(c),
        r is Some ==> utf8_width(c) == 1,
{
    match c {
        '(' => Some(TokenKind::LeftParen),
        ')' => Some(TokenKind::RightParen),
        '{' => Some(TokenKind::LeftBrace),
        '}' => Some(TokenKind::RightBrace),
        ',' => Some(TokenKind::Comma),
        '.' => Some(TokenKind::Dot),
        '-' => Some(TokenKind::Minus),
        '+' => Some(TokenKind::Plus),
        ';' => Some(TokenKind::SemiColon),
        '/' => Some(TokenKind::Slash),
        '*' => Some(TokenKind::Star),
        _ => None,
    }
}

/// The short and the long form of an operator that `=` may follow: `!` and `!=`, and so on.
pub open spec fn operator_forms_spec(c: char) -> Option<(TokenKind, TokenKind)> {
    match c {
        '!' => Some((TokenKind::Bang, TokenKind::BangEqual)),
        '=' => Some((TokenKind::Equal, TokenKind::EqualEqual)),
        '>' => Some((TokenKind::Greater, TokenKind::GreaterEqual)),
        '<' => Some((TokenKind::Less, TokenKind::LessEqual)),
        _ => None,
    }
}

/// The two forms of the operator that starts with `c`, if any.
fn operator_forms(c: char) -> (r: Option<(TokenKind, TokenKind)>)
    ensures
        r == operator_forms_spec(c),
        r is Some ==> utf8_width(c) == 1,
{
    match c {
        '!' => Some((TokenKind::Bang, TokenKind::BangEqual)),
        '=' => Some((TokenKind::Equal, TokenKind::EqualEqual)),
        '>' => Some((TokenKind::Greater, TokenKind::GreaterEqual)),
        '<' => Some((TokenKind::Less, TokenKind::LessEqual)),
        _ => None,
    }
}


// ---------------------------------------------------------------------------
// The classifier
/// What the classifier makes of the text at `p`: `Ok(None)` at the end of the text,
/// else the token that starts there with the number of characters it takes, or the
/// reason why none does.
pub open spec fn token_at(s: Seq<char>, p: int) -> Result<Option<(TokenView, nat)>, LexErrorView> {
    if !(0 <= p < s.len()) {
        Ok(None)
    } else {
        let c = s[p];
        if single_char_token(c) is Some {
            Ok(Some((TokenView::Plain(single_char_token(c)->0), 1)))
        } else if operator_forms_spec(c) is Some {
            let forms = operator_forms_spec(c)->0;
            if p + 1 < s.len() && s[p + 1] == '=' {
                Ok(Some((TokenView::Plain(forms.1), 2)))
            } else {
                Ok(Some((TokenView::Plain(forms.0), 1)))
            }
        } else if c == '"' {
            let n = run_len(s, p + 1, CharClass::NotQuote);
            if p + 1 + n < s.len() {
                Ok(Some((TokenView::Str(s.subrange(p + 1, p + 1 + n)), n + 2)))
            } else {
                Err(LexErrorView::UnterminatedString)
            }
        } else if is_digit_spec(c) {
            let n = run_len(s, p, CharClass::Digit);
            let v = decimal_value(s.subrange(p, p + n));
            if v <= i64::MAX {
                Ok(Some((TokenView::Plain(TokenKind::Number(v as i64)), n)))
            } else {
                Err(LexErrorView::InvalidNumber)
            }
        } else if is_ident_start(c) {
            let n = 1 + run_len(s, p + 1, CharClass::Word);
            let w = s.subrange(p, p + n);
            match keyword_of(w) {
                Some(k) => Ok(Some((TokenView::Plain(k), n))),
                None => Ok(Some((TokenView::Identifier(w), n))),
            }
        } else {
            let end = if p + SNIPPET_LEN < s.len() { p + SNIPPET_LEN } else { s.len() as int };
            Err(LexErrorView::UnknownToken(s.subrange(p, end)))
        }
    }
}

/// Each token takes at least one character, and no more than the text has left.
pub proof fn lemma_token_at(s: Seq<char>, p: int)
    requires
        0 <= p,
    ensures
        match token_at(s, p) {
            Ok(Some((_, n))) => 1 <= n && p + n <= s.len(),
            Ok(None) => p >= s.len(),
            Err(_) => p < s.len(),
        },
{
    if p < s.len() {
        let c = s[p];
        if single_char_token(c) is None && operator_forms_spec(c) is None {
            if c == '"' {
                lemma_run_len(s, p + 1, CharClass::NotQuote);
            } else if is_digit_spec(c) {
                lemma_run_len(s, p, CharClass::Digit);
            } else if is_ident_start(c) {
                lemma_run_len(s, p + 1, CharClass::Word);
            }
        }
    }
}

/// The outcome of classifying the text at the cursor, as a value, with lengths in
/// characters.
spec fn step_view(r: Result<Option<(TokenKind, usize, usize)>, LexError>) -> Result<
    Option<(TokenView, nat)>,
    LexErrorView,
> {
    match r {
        Ok(Some((t, _, n))) => Ok(Some((t@, n as nat))),
        Ok(None) => Ok(None),
        Err(e) => Err(e@),
    }
}

/// A token's length in bytes is the byte length of the characters it takes from `p` on.
spec fn lexeme_bytes(s: Seq<char>, p: int, r: Result<Option<(TokenKind, usize, usize)>, LexError>) -> bool {
    match r {
        Ok(Some((_, b, n))) => b == byte_len(s.subrange(p, p + n)),
        _ => true,
    }
}

/// One call of the scanner: skip the whitespace from `pos` on, then classify. Gives the
/// token, the end of the text or the failure, with the cursor that follows: past the
/// token, or where the token would have started.
pub open spec fn advance(s: Seq<char>, pos: nat) -> (Result<Option<TokenView>, LexErrorView>, nat) {
    let p = (pos + run_len(s, pos as int, CharClass::Space)) as nat;
    match token_at(s, p as int) {
        Ok(Some((t, n))) => (Ok(Some(t)), (p + n) as nat),
        Ok(None) => (Ok(None), p),
        Err(e) => (Err(e), p),
    }
}

/// A token moves the cursor forward within the text; the end of the text leaves it
/// at the end; a failure leaves it on a character of the text.
pub proof fn lemma_advance(s: Seq<char>, pos: nat)
    ensures
        match advance(s, pos) {
            (Ok(Some(_)), q) => pos < q <= s.len(),
            (Ok(None), q) => q == (if pos <= s.len() { s.len() } else { pos }),
            (Err(_), q) => pos <= q < s.len(),
        },
{
    if pos <= s.len() {
        lemma_run_len(s, pos as int, CharClass::Space);
    }
    lemma_token_at(s, (pos + run_len(s, pos as int, CharClass::Space)) as int);
}

/// Every token from `pos` to the end of the text, or the failure that stops the scan.
pub open spec fn scan_from(s: Seq<char>, pos: nat) -> Result<Seq<TokenView>, LexErrorView>
    decreases s.len() - pos,
    via scan_from_decreases
{
    match advance(s, pos) {
        (Ok(Some(t)), q) => match scan_from(s, q) {
            Ok(rest) => Ok(seq![t] + rest),
            Err(e) => Err(e),
        },
        (Ok(None), _) => Ok(Seq::empty()),
        (Err(e), _) => Err(e),
    }
}

#[via_fn]
proof fn scan_from_decreases(s: Seq<char>, pos: nat) {
    lemma_advance(s, pos);
}

/// The tokens of a finished scan, or its failure, as values.
pub open spec fn tokens_view(r: Result<Vec<TokenKind>, LexError>) -> Result<Seq<TokenView>, LexErrorView> {
    match r {
        Ok(v) => Ok(v@.map_values(|t: TokenKind| t@)),
        Err(e) => Err(e@),
    }
}

/// The outcome of one call of `Lexer::next_token`, as a value.
pub open spec fn result_view(r: Result<Option<TokenKind>, LexError>) -> Result<Option<TokenView>, LexErrorView> {
    match r {
        Ok(Some(t)) => Ok(Some(t@)),
        Ok(None) => Ok(None),
        Err(e) => Err(e@),
    }
}

/// `pre` followed by the tokens of `r`, or the failure of `r`.
pub open spec fn prepend(pre: Seq<TokenView>, r: Result<Seq<TokenView>, LexErrorView>) -> Result<Seq<TokenView>, LexErrorView> {
    match r {
        Ok(rest) => Ok(pre + rest),
        Err(e) => Err(e),
    }
}


// ---------------------------------------------------------------------------
// The scanner
/// A scanner over one source text. The text never changes; the cursor, a byte offset
/// into the text, only moves forward.
#[derive(Clone, Debug)]
pub struct Lexer {
    pub buffer: String,
    chars: Vec<char>,
    /// The cursor counted in characters: where in `chars` the next token is looked for.
    index: usize,
    /// The cursor counted in bytes.
    position: usize,
}

impl Lexer {
    /// The characters are those of the buffer, the cursor lies within them, and its
    /// byte offset is the byte length of the characters before it.
    pub closed spec fn wf(&self) -> bool {
        &&& self.chars@ == self.buffer@
        &&& self.index <= self.chars.len()
        &&& self.position == byte_len(self.chars@.subrange(0, self.index as int))
        &&& byte_len(self.chars@) <= usize::MAX
    }

    /// The text being scanned.
    pub closed spec fn text(&self) -> Seq<char> {
        self.buffer@
    }

    /// The cursor as a count of characters: how many characters have been consumed.
    pub closed spec fn index(&self) -> nat {
        self.index as nat
    }

    /// The cursor as a byte offset into the text.
    pub closed spec fn pos(&self) -> nat {
        self.position as nat
    }

    /// What the calls of `next_token` from here on produce: every token up to the end
    /// of the text, or the failure that stops them.
    pub open spec fn remaining(&self) -> Result<Seq<TokenView>, LexErrorView> {
        scan_from(self.text(), self.index())
    }

    /// A scanner at the start of `buffer`.
    pub fn new(buffer: String) -> (r: Self)
        ensures
            r.wf(),
            r.text() == buffer@,
            r.index() == 0,
            r.pos() == 0,
    {
        let chars = chars_of(&buffer);
        let bytes = buffer.as_str().as_bytes();
        let total = bytes.len();
        proof {
            lemma_byte_len_encoding(chars@);
            assert(chars@.subrange(0, 0).len() == 0);
        }
        assert(total == byte_len(chars@));
        Lexer { buffer, chars, index: 0, position: 0 }
    }

    /// Counts the characters that match `k` from the cursor on, and their bytes.
    fn take_all_next(&self, k: CharClass) -> (r: (usize, usize))
        requires
            self.wf(),
        ensures
            r.0 == run_len(self.text(), self.index() as int, k),
            self.index + r.0 <= self.chars.len(),
            r.1 == byte_len(self.text().subrange(self.index() as int, self.index() + r.0)),
    {
        take_all(&self.chars, self.index, k)
    }

    /// The whitespace at the cursor: its length in characters and in bytes.
    fn skip_whitespaces(&self) -> (r: (usize, usize))
        requires
            self.wf(),
        ensures
            r.0 == run_len(self.text(), self.index() as int, CharClass::Space),
            self.index + r.0 <= self.chars.len(),
            r.1 == byte_len(self.text().subrange(self.index() as int, self.index() + r.0)),
    {
        self.take_all_next(CharClass::Space)
    }

    /// The identifier candidate at the cursor: the first character and the alphanumeric
    /// run after it, with its length in bytes and in characters. Whether it is a
    /// keyword is left to the caller.
    fn tokenize_next_identifier(&self) -> (r: (TokenKind, usize, usize))
        requires
            self.wf(),
            self.index < self.chars.len(),
        ensures
            r.2 == 1 + run_len(self.text(), (self.index() + 1) as int, CharClass::Word),
            self.index() + r.2 <= self.text().len(),
            r.0@ == TokenView::Identifier(self.text().subrange(self.index() as int, self.index() + r.2)),
            r.1 == byte_len(self.text().subrange(self.index() as int, self.index() + r.2)),
    {
        let start = self.index;
        let (rest, rest_bytes) = take_all(&self.chars, start + 1, CharClass::Word);
        let n = 1 + rest;
        proof {
            let s = self.chars@;
            lemma_byte_len_one(s, start as int);
            lemma_byte_len_split(s, start as int, start + 1, start + n);
        }
        let bytes = len_utf8(self.chars[start]) + rest_bytes;
        (TokenKind::Identifier(text_of(&self.chars, start, start + n)), bytes, n)
    }

    /// The string literal at the cursor, which is on its opening quote.
    fn tokenize_next_string(&self) -> (r: Result<Option<(TokenKind, usize, usize)>, LexError>)
        requires
            self.wf(),
            self.index < self.chars.len(),
            self.chars@[self.index as int] == '"',
        ensures
            step_view(r) == token_at(self.text(), self.index() as int),
            lexeme_bytes(self.text(), self.index() as int, r),
    {
        let start = self.index + 1;
        let (n, inner) = take_all(&self.chars, start, CharClass::NotQuote);
        if start + n < self.chars.len() {
            proof {
                let s = self.chars@;
                let p = self.index as int;
                lemma_run_len(s, start as int, CharClass::NotQuote);
                lemma_byte_len_one(s, p);
                assert(s[start + n] == '"');
                lemma_byte_len_one(s, start + n);
                lemma_byte_len_split(s, p, p + 1, start + n);
                lemma_byte_len_split(s, p, start + n, start + n + 1);
            }
            let text = text_of(&self.chars, start, start + n);
            Ok(Some((TokenKind::String(text), inner + 2, n + 2)))
        } else {
            Err(LexError::UnterminatedString)
        }
    }

    /// The number at the cursor, which is on a digit.
    fn tokenize_next_number(&self) -> (r: Result<Option<(TokenKind, usize, usize)>, LexError>)
        requires
            self.wf(),
            self.index < self.chars.len(),
            is_digit_spec(self.chars@[self.index as int]),
        ensures
            step_view(r) == token_at(self.text(), self.index() as int),
            lexeme_bytes(self.text(), self.index() as int, r),
    {
        let start = self.index;
        let (n, bytes) = self.take_all_next(CharClass::Digit);
        proof {
            lemma_run_len(self.chars@, start as int, CharClass::Digit);
        }
        match parse_decimal(&self.chars, start, start + n) {
            Some(v) => Ok(Some((TokenKind::Number(v), bytes, n))),
            None => Err(LexError::InvalidNumber),
        }
    }

    /// Classifies the text at the cursor, which is not on whitespace: the token, its
    /// length in bytes and its length in characters.
    fn tokenize_next(&self) -> (r: Result<Option<(TokenKind, usize, usize)>, LexError>)
        requires
            self.wf(),
        ensures
            step_view(r) == token_at(self.text(), self.index() as int),
            lexeme_bytes(self.text(), self.index() as int, r),
    {
        let pos = self.index;
        let len = self.chars.len();
        if pos >= len {
            return Ok(None);
        }
        let c = self.chars[pos];
        let ghost s = self.chars@;
        proof {
            lemma_byte_len_one(s, pos as int);
        }
        if let Some(t) = single_char(c) {
            return Ok(Some((t, 1, 1)));
        }
        if let Some(forms) = operator_forms(c) {
            let (short, long) = forms;
            if pos + 1 < len && self.chars[pos + 1] == '=' {
                proof {
                    lemma_byte_len_one(s, pos + 1);
                    lemma_byte_len_split(s, pos as int, pos + 1, pos + 2);
                }
                return Ok(Some((long, 2, 2)));
            } else {
                return Ok(Some((short, 1, 1)));
            }
        }
        if c == '"' {
            return self.tokenize_next_string();
        }
        if '0' <= c && c <= '9' {
            return self.tokenize_next_number();
        }
        if c == '_' || is_alphabetic(c) {
            let (ident, bytes, n) = self.tokenize_next_identifier();
            // an identifier spelled like a reserved word is that word
            return match is_keyword(&self.chars, pos, pos + n) {
                Some(keyword) => Ok(Some((keyword, bytes, n))),
                None => Ok(Some((ident, bytes, n))),
            };
        }
        let end = if len - pos > SNIPPET_LEN {
            pos + SNIPPET_LEN
        } else {
            len
        };
        Err(LexError::UnknownToken(text_of(&self.chars, pos, end)))
    }

    /// Skips the whitespace at the cursor and produces the next token, `None` at the end
    /// of the text, or the failure that stops the scan. At the end of the text, and
    /// after a failure, the cursor stays where it is, so that every further call
    /// gives the same outcome again. The cursor moves by the bytes consumed.
    pub fn next_token(&mut self) -> (r: Result<Option<TokenKind>, LexError>)
        requires
            old(self).wf(),
        ensures
            final(self).wf(),
            final(self).text() == old(self).text(),
            (result_view(r), final(self).index()) == advance(old(self).text(), old(self).index()),
            final(self).pos() == byte_len(final(self).text().subrange(0, final(self).index() as int)),
    {
        let ghost s = self.chars@;
        let (skipped, skipped_bytes) = self.skip_whitespaces();
        proof {
            lemma_byte_len_split(s, 0, self.index as int, self.index + skipped);
        }
        self.index = self.index + skipped;
        self.position = self.position + skipped_bytes;
        proof {
            lemma_token_at(self.text(), self.index() as int);
        }
        match self.tokenize_next() {
            Ok(Some((t, bytes, n))) => {
                proof {
                    lemma_byte_len_split(s, 0, self.index as int, self.index + n);
                }
                self.index = self.index + n;
                self.position = self.position + bytes;
                Ok(Some(t))
            },
            Ok(None) => Ok(None),
            Err(e) => Err(e),
        }
    }

    /// All the tokens from the cursor to the end of the text, or the first failure.
    pub fn tokenize(&mut self) -> (r: Result<Vec<TokenKind>, LexError>)
        requires
            old(self).wf(),
        ensures
            final(self).wf(),
            final(self).text() == old(self).text(),
            tokens_view(r) == old(self).remaining(),
            r is Ok ==> final(self).index() == final(self).text().len(),
            r is Ok ==> final(self).pos() == byte_len(final(self).text()),
    {
        let ghost s = self.text();
        let ghost start = self.index();
        let mut tokens: Vec<TokenKind> = Vec::new();
        assert(scan_from(s, start) == prepend(
            tokens@.map_values(|t: TokenKind| t@),
            scan_from(s, self.index()),
        )) by {
            match scan_from(s, start) {
                Ok(rest) => assert(Seq::<TokenView>::empty() + rest =~= rest),
                Err(_) => {},
            }
        }
        loop
            invariant
                self.wf(),
                self.text() == s,
                s == old(self).text(),
                start == old(self).index(),
                self.index() <= s.len(),
                scan_from(s, start) == prepend(
                    tokens@.map_values(|t: TokenKind| t@),
                    scan_from(s, self.index()),
                ),
            decreases s.len() - self.index(),
        {
            let ghost before = self.index();
            proof {
                lemma_advance(s, before);
            }
            match self.next_token() {
                Ok(Some(t)) => {
                    let ghost pre = tokens@.map_values(|t: TokenKind| t@);
                    tokens.push(t);
                    proof {
                        assert(tokens@.map_values(|t: TokenKind| t@) =~= pre.push(t@));
                        match scan_from(s, self.index()) {
                            Ok(rest) => assert(pre + (seq![t@] + rest) =~= pre.push(t@) + rest),
                            Err(_) => {},
                        }
                    }
                },
                Ok(None) => {
                    assert(tokens@.map_values(|t: TokenKind| t@) + Seq::<TokenView>::empty()
                        =~= tokens@.map_values(|t: TokenKind| t@));
                    assert(s.subrange(0, s.len() as int) =~= s);
                    return Ok(tokens);
                },
                Err(e) => {
                    return Err(e);
                },
            }
        }
    }
}


// ---------------------------------------------------------------------------
// Laws
/// The pieces that the scan cuts the text into from `pos` on: for each token, the
/// whitespace before it and then its lexeme; last, the whitespace before the end of the
/// text or before the failure.
pub open spec fn spans(s: Seq<char>, pos: nat) -> Seq<Seq<char>>
    decreases s.len() - pos,
    via spans_decreases
{
    let p = (pos + run_len(s, pos as int, CharClass::Space)) as nat;
    match token_at(s, p as int) {
        Ok(Some((_, n))) => seq![s.subrange(pos as int, p as int), s.subrange(p as int, (p + n) as int)]
            + spans(s, (p + n) as nat),
        _ => seq![s.subrange(pos as int, p as int)],
    }
}

#[via_fn]
proof fn spans_decreases(s: Seq<char>, pos: nat) {
    lemma_advance(s, pos);
}

proof fn lemma_spans_cover(s: Seq<char>, pos: nat)
    requires
        pos <= s.len(),
        scan_from(s, pos) is Ok,
    ensures
        spans(s, pos).flatten() =~= s.subrange(pos as int, s.len() as int),
    decreases s.len() - pos,
{
    lemma_advance(s, pos);
    lemma_run_len(s, pos as int, CharClass::Space);
    let p = (pos + run_len(s, pos as int, CharClass::Space)) as int;
    lemma_token_at(s, p);
    let a = s.subrange(pos as int, p);
    match token_at(s, p) {
        Ok(Some((_, n))) => {
            let q = (p + n) as int;
            lemma_spans_cover(s, q as nat);
            let b = s.subrange(p, q);
            let rest = spans(s, q as nat);
            let all = seq![a, b] + rest;
            assert(all.drop_first() =~= seq![b] + rest);
            assert((seq![b] + rest).drop_first() =~= rest);
            assert((seq![b] + rest).flatten() == b + rest.flatten());
            assert(all.flatten() == a + (b + rest.flatten()));
            assert(s.subrange(pos as int, s.len() as int) =~= a + (b + s.subrange(q, s.len() as int)));
        },
        Ok(None) => {
            assert(seq![a].drop_first() =~= Seq::<Seq<char>>::empty());
            assert(seq![a].flatten() == a + Seq::<Seq<char>>::empty().flatten());
            assert(a + Seq::<char>::empty() =~= a);
        },
        Err(_) => {},
    }
}

/// Scanning consumes the text exactly: where the scan reaches the end of the text, the
/// whitespace runs and the lexemes that it consumed, in order, make up the whole text.
/// No character is counted twice or left out, so their lengths add up to the text's.
pub proof fn lemma_scan_covers_text(s: Seq<char>)
    requires
        scan_from(s, 0) is Ok,
    ensures
        spans(s, 0).flatten() == s,
{
    lemma_spans_cover(s, 0);
    assert(s.subrange(0, s.len() as int) =~= s);
}

/// Once the scan has reached the end of the text, the cursor is at the end, and every
/// further call reports the end again.
pub proof fn lemma_end_is_final(s: Seq<char>, pos: nat)
    requires
        pos <= s.len(),
        advance(s, pos).0 is Ok,
        advance(s, pos).0->Ok_0 is None,
    ensures
        advance(s, pos).1 == s.len(),
        advance(s, advance(s, pos).1) == advance(s, pos),
{
    lemma_advance(s, pos);
}

/// A failure is final: the cursor stays on the text that failed, and scanning from
/// there fails again in the same way.
pub proof fn lemma_failure_is_final(s: Seq<char>, pos: nat)
    requires
        advance(s, pos).0 is Err,
    ensures
        advance(s, advance(s, pos).1) == advance(s, pos),
{
    lemma_advance(s, pos);
    if pos <= s.len() {
        lemma_run_len(s, pos as int, CharClass::Space);
    }
}

/// Scanning is deterministic: two scanners over the same text, both at its start,
/// produce the same tokens in the same order, or the same failure.
pub proof fn lemma_scan_deterministic(a: Lexer, b: Lexer)
    requires
        a.wf(),
        b.wf(),
        a.text() == b.text(),
        a.pos() == 0,
        b.pos() == 0,
    ensures
        a.remaining() == b.remaining(),
{
}


/// The sum of the byte lengths of `pieces`.
pub open spec fn total_bytes(pieces: Seq<Seq<char>>) -> nat
    decreases pieces.len(),
{
    if pieces.len() == 0 {
        0
    } else {
        byte_len(pieces[0]) + total_bytes(pieces.drop_first())
    }
}

proof fn lemma_total_bytes_flatten(pieces: Seq<Seq<char>>)
    ensures
        byte_len(pieces.flatten()) == total_bytes(pieces),
    decreases pieces.len(),
{
    if pieces.len() > 0 {
        lemma_total_bytes_flatten(pieces.drop_first());
        lemma_byte_len_concat(pieces[0], pieces.drop_first().flatten());
    } else {
        assert(byte_len(Seq::<char>::empty()) == 0);
    }
}

/// Scanning consumes the text byte for byte: where the scan reaches the end of the
/// text, the byte lengths of the whitespace runs and of the lexemes that it consumed add
/// up to the byte length of the text, which is the length of its UTF-8 encoding.
pub proof fn lemma_scan_consumes_all_bytes(s: Seq<char>)
    requires
        scan_from(s, 0) is Ok,
    ensures
        total_bytes(spans(s, 0)) == byte_len(s),
        byte_len(s) == encode_utf8(s).len(),
{
    lemma_scan_covers_text(s);
    lemma_total_bytes_flatten(spans(s, 0));
    lemma_byte_len_encoding(s);
}

/// An operator that `=` may follow takes its long form, two characters, exactly where
/// the next character is `=`, and its short form, one character, everywhere else.
pub proof fn lemma_operator_forms(s: Seq<char>, p: int)
    requires
        0 <= p < s.len(),
        operator_forms_spec(s[p]) is Some,
    ensures
        token_at(s, p) == (if p + 1 < s.len() && s[p + 1] == '=' {
            Ok::<Option<(TokenView, nat)>, LexErrorView>(
                Some((TokenView::Plain((operator_forms_spec(s[p])->0).1), 2)),
            )
        } else {
            Ok(Some((TokenView::Plain((operator_forms_spec(s[p])->0).0), 1)))
        }),
{
}

} // verus!
