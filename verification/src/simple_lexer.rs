//! The lexer: a deterministic automaton that cuts source text into tokens,
//! and the cursor through which a parser reads them.
use vstd::prelude::*;
use vstd::string::*;
use crate::{Token, TokenReader, TokenType};

verus! {

/// Taken on trust from std: `String::push` puts the character `c` behind the
/// characters that the string holds and changes nothing else, so the string
/// after the call reads as the string before it with `c` at its end.
pub assume_specification[ String::push ](s: &mut String, c: char)
    ensures
        final(s)@ == old(s)@.push(c),
;

/// A token as contracts see it: its kind and its lexeme.
pub struct TokenView {
    pub kind: TokenType,
    pub text: Seq<char>,
}

/// An ASCII letter.
pub open spec fn alpha(c: char) -> bool {
    (c >= 'a' && c <= 'z') || (c >= 'A' && c <= 'Z')
}

/// A decimal digit.
pub open spec fn digit(c: char) -> bool {
    c >= '0' && c <= '9'
}

/// A space, a tab or a line feed.
pub open spec fn blank(c: char) -> bool {
    c == ' ' || c == '\t' || c == '\n'
}

/// A letter or a digit: what a name is made of.
pub open spec fn alnum(c: char) -> bool {
    alpha(c) || digit(c)
}

/// Whether `ch` is an ASCII letter.
pub fn is_alpha(ch: char) -> (r: bool)
    ensures
        r == alpha(ch),
{
    (ch >= 'a' && ch <= 'z') || (ch >= 'A' && ch <= 'Z')
}

/// Whether `ch` is a decimal digit.
pub fn is_digit(ch: char) -> (r: bool)
    ensures
        r == digit(ch),
{
    ch >= '0' && ch <= '9'
}

/// Whether `ch` is a space, a tab or a line feed.
pub fn is_blank(ch: char) -> (r: bool)
    ensures
        r == blank(ch),
{
    ch == ' ' || ch == '\t' || ch == '\n'
}

/// The kind of the lexeme that a character forms by itself, for the
/// characters that are neither letters, digits, `>` nor `=`.
pub open spec fn symbol_kind(c: char) -> TokenType {
    if c == '<' {
        TokenType::LT
    } else if c == '(' {
        TokenType::LeftParen
    } else if c == ')' {
        TokenType::RightParen
    } else if c == ';' {
        TokenType::SemiColon
    } else if c == '+' {
        TokenType::Plus
    } else if c == '-' {
        TokenType::Minus
    } else if c == '*' {
        TokenType::Star
    } else if c == '/' {
        TokenType::Slash
    } else {
        TokenType::Unknown
    }
}

/// How many characters from index `i` on are letters or digits, without a gap.
pub open spec fn word_len(s: Seq<char>, i: int) -> nat
    decreases s.len() - i,
{
    if 0 <= i < s.len() && alnum(s[i]) {
        1 + word_len(s, i + 1)
    } else {
        0
    }
}

/// How many characters from index `i` on are digits, without a gap.
pub open spec fn digits_len(s: Seq<char>, i: int) -> nat
    decreases s.len() - i,
{
    if 0 <= i < s.len() && digit(s[i]) {
        1 + digits_len(s, i + 1)
    } else {
        0
    }
}

/// How many characters the lexeme that starts at index `i` has after its
/// first: the rest of the longest word or number, or the second character
/// of a two-character operator.
pub open spec fn lexeme_rest(s: Seq<char>, i: int) -> nat {
    let c = s[i];
    if alpha(c) {
        word_len(s, i + 1)
    } else if digit(c) {
        digits_len(s, i + 1)
    } else if (c == '>' || c == '=') && i + 1 < s.len() && s[i + 1] == '=' {
        1
    } else {
        0
    }
}

/// The length of the lexeme that starts at index `i`.
pub open spec fn lexeme_len(s: Seq<char>, i: int) -> nat {
    1 + lexeme_rest(s, i)
}

/// Whether the three characters from index `i` on spell the keyword `int`
/// and a blank follows them.
pub open spec fn int_keyword_at(s: Seq<char>, i: int) -> bool {
    &&& i + 3 < s.len()
    &&& s[i] == 'i'
    &&& s[i + 1] == 'n'
    &&& s[i + 2] == 't'
    &&& blank(s[i + 3])
}

/// The kind of the lexeme of length `n` that starts at index `i`.
pub open spec fn lexeme_kind(s: Seq<char>, i: int, n: nat) -> TokenType {
    let c = s[i];
    if alpha(c) {
        if n == 3 && int_keyword_at(s, i) {
            TokenType::Int
        } else {
            TokenType::Identifier
        }
    } else if digit(c) {
        TokenType::IntLiteral
    } else if c == '>' {
        if n == 2 {
            TokenType::GE
        } else {
            TokenType::GT
        }
    } else if c == '=' {
        if n == 2 {
            TokenType::EQ
        } else {
            TokenType::Assignment
        }
    } else {
        symbol_kind(c)
    }
}

/// The tokens of the text from index `i` on: blanks are skipped, and every
/// other character belongs to exactly one lexeme, the longest that starts
/// where the one before ended.
pub open spec fn tokens_from(s: Seq<char>, i: int) -> Seq<TokenView>
    decreases s.len() - i,
{
    if i < 0 || i >= s.len() {
        Seq::empty()
    } else if blank(s[i]) {
        tokens_from(s, i + 1)
    } else {
        let n = lexeme_len(s, i);
        let first = TokenView { kind: lexeme_kind(s, i, n), text: s.subrange(i, i + n) };
        if i + n < s.len() {
            seq![first] + tokens_from(s, i + n)
        } else {
            seq![first]
        }
    }
}

/// The tokens of a whole source text.
pub open spec fn lex(s: Seq<char>) -> Seq<TokenView> {
    tokens_from(s, 0)
}

/// The states of the lexer's automaton.
#[derive(Debug, Clone, Copy, PartialEq, Eq, Structural)]
pub enum DfaState {
    Initial,
    If,
    IdIf1,
    IdIf2,
    Else,
    IdElse1,
    IdElse2,
    IdElse3,
    IdElse4,
    Int,
    IdInt1,
    IdInt2,
    IdInt3,
    Id,
    GT,
    GE,
    LT,
    EQ,
    Assignment,
    Plus,
    Minus,
    Star,
    Slash,
    SemiColon,
    LeftParen,
    RightParen,
    IntLiteral,
}

/// A token: its kind and its lexeme.
#[derive(Debug)]
pub struct SimpleToken {
    pub token_type: TokenType,
    pub token_text: String,
}

impl View for SimpleToken {
    type V = TokenView;

    open spec fn view(&self) -> TokenView {
        TokenView { kind: self.token_type, text: self.token_text@ }
    }
}

impl Clone for SimpleToken {
    fn clone(&self) -> (r: Self)
        ensures
            r == *self,
    {
        SimpleToken { token_type: self.token_type, token_text: self.token_text.clone() }
    }
}

impl Default for SimpleToken {
    fn default() -> (r: Self)
        ensures
            r.token_type == TokenType::Plus,
            r.token_text@ == Seq::<char>::empty(),
    {
        SimpleToken { token_type: TokenType::Plus, token_text: String::new() }
    }
}

impl Token for SimpleToken {
    /// The token's kind.
    fn get_type(&self) -> (r: TokenType)
        ensures
            r == self.token_type,
    {
        self.token_type
    }

    /// A copy of the token's lexeme.
    fn get_text(&self) -> (r: String)
        ensures
            r@ == self.token_text@,
    {
        self.token_text.clone()
    }
}

/// The views of a sequence of tokens, in order.
pub open spec fn token_views(v: Seq<SimpleToken>) -> Seq<TokenView> {
    Seq::new(v.len(), |i: int| v[i]@)
}

/// The state that the automaton enters on the first character of a lexeme.
pub open spec fn start_state(c: char) -> DfaState {
    if c == 'i' {
        DfaState::IdInt1
    } else if c == '>' {
        DfaState::GT
    } else if c == '<' {
        DfaState::LT
    } else if c == '(' {
        DfaState::LeftParen
    } else if c == ')' {
        DfaState::RightParen
    } else if c == ';' {
        DfaState::SemiColon
    } else if c == '+' {
        DfaState::Plus
    } else if c == '-' {
        DfaState::Minus
    } else if c == '*' {
        DfaState::Star
    } else if c == '/' {
        DfaState::Slash
    } else if c == '=' {
        DfaState::Assignment
    } else if alpha(c) {
        DfaState::Id
    } else if digit(c) {
        DfaState::IntLiteral
    } else {
        DfaState::Initial
    }
}

/// The kind that a pending token has after its first character.
pub open spec fn start_kind(c: char) -> TokenType {
    if alpha(c) {
        TokenType::Identifier
    } else if digit(c) {
        TokenType::IntLiteral
    } else if c == '>' {
        TokenType::GT
    } else if c == '=' {
        TokenType::Assignment
    } else {
        symbol_kind(c)
    }
}

/// The state after character `c` where `c` continues the pending token, and
/// `None` where the pending token ends before `c`.
pub open spec fn continued(state: DfaState, c: char) -> Option<DfaState> {
    match state {
        DfaState::Id => if alnum(c) {
            Some(DfaState::Id)
        } else {
            None
        },
        DfaState::IdInt1 => if c == 'n' {
            Some(DfaState::IdInt2)
        } else if alnum(c) {
            Some(DfaState::Id)
        } else {
            None
        },
        DfaState::IdInt2 => if c == 't' {
            Some(DfaState::IdInt3)
        } else if alnum(c) {
            Some(DfaState::Id)
        } else {
            None
        },
        DfaState::IdInt3 => if alnum(c) {
            Some(DfaState::Id)
        } else {
            None
        },
        DfaState::GT => if c == '=' {
            Some(DfaState::GE)
        } else {
            None
        },
        DfaState::Assignment => if c == '=' {
            Some(DfaState::EQ)
        } else {
            None
        },
        DfaState::IntLiteral => if digit(c) {
            Some(DfaState::IntLiteral)
        } else {
            None
        },
        _ => None,
    }
}

/// What the automaton's state says of the pending token, which spans the
/// characters from `start` up to `i` and has kind `kind`.
pub open spec fn pending(s: Seq<char>, start: int, i: int, state: DfaState, kind: TokenType) -> bool {
    &&& 0 <= start <= i <= s.len()
    &&& match state {
        DfaState::Initial => start == i || (i == start + 1 && !blank(s[start]) && start_state(
            s[start],
        ) == DfaState::Initial && kind == TokenType::Unknown),
        DfaState::Id => {
            &&& start < i
            &&& alpha(s[start])
            &&& forall|j: int| start < j < i ==> alnum(#[trigger] s[j])
            &&& kind == TokenType::Identifier
            &&& !(i - start <= 3 && s[start] == 'i' && (i - start >= 2 ==> s[start + 1] == 'n') && (i
                - start >= 3 ==> s[start + 2] == 't'))
        },
        DfaState::IdInt1 => i == start + 1 && s[start] == 'i' && kind == TokenType::Identifier,
        DfaState::IdInt2 => i == start + 2 && s[start] == 'i' && s[start + 1] == 'n' && kind
            == TokenType::Identifier,
        DfaState::IdInt3 => i == start + 3 && s[start] == 'i' && s[start + 1] == 'n' && s[start
            + 2] == 't' && kind == TokenType::Identifier,
        DfaState::IntLiteral => {
            &&& start < i
            &&& forall|j: int| start <= j < i ==> digit(#[trigger] s[j])
            &&& kind == TokenType::IntLiteral
        },
        DfaState::GE => i == start + 2 && s[start] == '>' && s[start + 1] == '=' && kind
            == TokenType::GE,
        DfaState::EQ => i == start + 2 && s[start] == '=' && s[start + 1] == '=' && kind
            == TokenType::EQ,
        DfaState::GT | DfaState::Assignment | DfaState::LT | DfaState::Plus | DfaState::Minus
        | DfaState::Star | DfaState::Slash | DfaState::SemiColon | DfaState::LeftParen
        | DfaState::RightParen => i == start + 1 && start_state(s[start]) == state && kind
            == start_kind(s[start]),
        _ => false,
    }
}

/// A run of letters and digits that ends at `i` has the length `i - a`.
proof fn lemma_word_len(s: Seq<char>, a: int, i: int)
    requires
        0 <= a <= i <= s.len(),
        forall|j: int| a <= j < i ==> alnum(#[trigger] s[j]),
        i == s.len() || !alnum(s[i]),
    ensures
        word_len(s, a) == i - a,
    decreases i - a,
{
    if a < i {
        lemma_word_len(s, a + 1, i);
    }
}

/// A run of digits that ends at `i` has the length `i - a`.
proof fn lemma_digits_len(s: Seq<char>, a: int, i: int)
    requires
        0 <= a <= i <= s.len(),
        forall|j: int| a <= j < i ==> digit(#[trigger] s[j]),
        i == s.len() || !digit(s[i]),
    ensures
        digits_len(s, a) == i - a,
    decreases i - a,
{
    if a < i {
        lemma_digits_len(s, a + 1, i);
    }
}

/// A pending token that the next character does not continue is the lexeme
/// that starts where it started.
proof fn lemma_pending_complete(s: Seq<char>, start: int, i: int, state: DfaState, kind: TokenType)
    requires
        pending(s, start, i, state, kind),
        start < i,
        i == s.len() || continued(state, s[i]) is None,
    ensures
        !blank(s[start]),
        lexeme_len(s, start) == i - start,
        lexeme_kind(s, start, (i - start) as nat) == (if state == DfaState::IdInt3 && i < s.len()
            && blank(s[i]) {
            TokenType::Int
        } else {
            kind
        }),
{
    match state {
        DfaState::Id | DfaState::IdInt1 | DfaState::IdInt2 | DfaState::IdInt3 => {
            lemma_word_len(s, start + 1, i);
        },
        DfaState::IntLiteral => {
            lemma_digits_len(s, start + 1, i);
        },
        _ => {},
    }
}

/// A run of letters and digits, or of digits, ends within the text.
proof fn lemma_word_within(s: Seq<char>, i: int)
    requires
        0 <= i <= s.len(),
    ensures
        i + word_len(s, i) <= s.len(),
        i + digits_len(s, i) <= s.len(),
    decreases s.len() - i,
{
    if i < s.len() {
        lemma_word_within(s, i + 1);
    }
}

/// A lexeme ends within the text that it starts in.
pub proof fn lemma_lexeme_within(s: Seq<char>, i: int)
    requires
        0 <= i < s.len(),
    ensures
        i + lexeme_len(s, i) <= s.len(),
{
    lemma_word_within(s, i + 1);
}

/// No token of a text has an empty lexeme, and none starts with a blank.
pub proof fn lemma_tokens_have_text(s: Seq<char>, i: int)
    ensures
        forall|k: int|
            0 <= k < tokens_from(s, i).len() ==> (#[trigger] tokens_from(s, i)[k]).text.len() > 0
                && !blank(tokens_from(s, i)[k].text[0]),
    decreases s.len() - i,
{
    if 0 <= i < s.len() {
        if blank(s[i]) {
            lemma_tokens_have_text(s, i + 1);
        } else {
            lemma_lexeme_within(s, i);
            let n = lexeme_len(s, i);
            if i + n < s.len() {
                lemma_tokens_have_text(s, i + n);
            }
        }
    }
}

/// The lexer. It holds the tokens cut so far.
pub struct SimpleLexer {
    tokens: Vec<SimpleToken>,
}

impl View for SimpleLexer {
    type V = Seq<TokenView>;

    closed spec fn view(&self) -> Seq<TokenView> {
        token_views(self.tokens@)
    }
}

impl SimpleLexer {
    /// A lexer that holds no token yet.
    pub fn new() -> (r: Self)
        ensures
            r@ == Seq::<TokenView>::empty(),
    {
        let r = SimpleLexer { tokens: Vec::new() };
        assert(r@ =~= Seq::<TokenView>::empty());
        r
    }

    /// The automaton's move on a character that continues the pending token.
    pub fn next_state(state: DfaState, c: char) -> (r: Option<DfaState>)
        ensures
            r == continued(state, c),
    {
        match state {
            DfaState::Id => if is_alpha(c) || is_digit(c) {
                Some(DfaState::Id)
            } else {
                None
            },
            DfaState::IdInt1 => if c == 'n' {
                Some(DfaState::IdInt2)
            } else if is_alpha(c) || is_digit(c) {
                Some(DfaState::Id)
            } else {
                None
            },
            DfaState::IdInt2 => if c == 't' {
                Some(DfaState::IdInt3)
            } else if is_alpha(c) || is_digit(c) {
                Some(DfaState::Id)
            } else {
                None
            },
            DfaState::IdInt3 => if is_alpha(c) || is_digit(c) {
                Some(DfaState::Id)
            } else {
                None
            },
            DfaState::GT => if c == '=' {
                Some(DfaState::GE)
            } else {
                None
            },
            DfaState::Assignment => if c == '=' {
                Some(DfaState::EQ)
            } else {
                None
            },
            DfaState::IntLiteral => if is_digit(c) {
                Some(DfaState::IntLiteral)
            } else {
                None
            },
            _ => None,
        }
    }

    /// Starts a token on character `c`: the state the automaton enters and
    /// the pending token, which holds `c` unless `c` is a blank.
    pub fn init_token(c: char) -> (r: (DfaState, SimpleToken))
        ensures
            r.0 == start_state(c),
            r.1.token_type == start_kind(c),
            r.1.token_text@ == (if blank(c) {
                Seq::<char>::empty()
            } else {
                seq![c]
            }),
    {
        let mut state = DfaState::Initial;
        let mut token = SimpleToken::default();
        token.token_type = TokenType::Unknown;
        if c == 'i' {
            state = DfaState::IdInt1;
            token.token_type = TokenType::Identifier;
        } else if c == '>' {
            state = DfaState::GT;
            token.token_type = TokenType::GT;
        } else if c == '<' {
            state = DfaState::LT;
            token.token_type = TokenType::LT;
        } else if c == '(' {
            state = DfaState::LeftParen;
            token.token_type = TokenType::LeftParen;
        } else if c == ')' {
            state = DfaState::RightParen;
            token.token_type = TokenType::RightParen;
        } else if c == ';' {
            state = DfaState::SemiColon;
            token.token_type = TokenType::SemiColon;
        } else if c == '+' {
            state = DfaState::Plus;
            token.token_type = TokenType::Plus;
        } else if c == '-' {
            state = DfaState::Minus;
            token.token_type = TokenType::Minus;
        } else if c == '*' {
            state = DfaState::Star;
            token.token_type = TokenType::Star;
        } else if c == '/' {
            state = DfaState::Slash;
            token.token_type = TokenType::Slash;
        } else if c == '=' {
            state = DfaState::Assignment;
            token.token_type = TokenType::Assignment;
        } else if is_alpha(c) {
            state = DfaState::Id;
            token.token_type = TokenType::Identifier;
        } else if is_digit(c) {
            state = DfaState::IntLiteral;
            token.token_type = TokenType::IntLiteral;
        }
        if !is_blank(c) {
            token.token_text.push(c);
            assert(token.token_text@ =~= seq![c]);
        }
        (state, token)
    }

    /// Cuts the whole of `code` into tokens, appends them to those the lexer
    /// holds, and hands back a cursor at the first of them.
    pub fn tokenize(self, code: String) -> (reader: SimpleTokenReader)
        ensures
            reader.tokens() == self@ + lex(code@),
            reader.position() == 0,
    {
        let mut tokens = self.tokens;
        let text = code.as_str();
        let n = text.unicode_len();
        let mut token = SimpleToken::default();
        let mut state = DfaState::Initial;
        let mut i: usize = 0;
        let ghost s = code@;
        let ghost mut start: int = 0;
        proof {
            assert(token_views(tokens@) + tokens_from(s, 0) =~= self@ + lex(s));
        }
        while i < n
            invariant
                s == code@,
                text@ == s,
                n == s.len(),
                i <= n,
                pending(s, start, i as int, state, token.token_type),
                token.token_text@ == s.subrange(start, i as int),
                token_views(tokens@) + tokens_from(s, start) == self@ + lex(s),
            decreases n - i,
        {
            let c = text.get_char(i);
            match Self::next_state(state, c) {
                Some(next) => {
                    token.token_text.push(c);
                    if next == DfaState::GE {
                        token.token_type = TokenType::GE;
                    } else if next == DfaState::EQ {
                        token.token_type = TokenType::EQ;
                    }
                    state = next;
                    proof {
                        assert(s.subrange(start, i as int).push(c) =~= s.subrange(
                            start,
                            i as int + 1,
                        ));
                    }
                },
                None => {
                    if !token.token_text.as_str().is_empty() {
                        proof {
                            lemma_pending_complete(s, start, i as int, state, token.token_type);
                        }
                        if state == DfaState::IdInt3 && is_blank(c) {
                            token.token_type = TokenType::Int;
                        }
                        proof {
                            lemma_pushed_view(tokens@, token);
                            assert((token_views(tokens@) + seq![token@]) + tokens_from(s, i as int)
                                =~= token_views(tokens@) + (seq![token@] + tokens_from(
                                s,
                                i as int,
                            )));
                        }
                        tokens.push(token);
                    }
                    let fresh = Self::init_token(c);
                    state = fresh.0;
                    token = fresh.1;
                    proof {
                        if blank(c) {
                            start = i as int + 1;
                            assert(s.subrange(start, i as int + 1) =~= Seq::<char>::empty());
                        } else {
                            start = i as int;
                            assert(s.subrange(start, i as int + 1) =~= seq![c]);
                        }
                    }
                },
            }
            i = i + 1;
        }
        if !token.token_text.as_str().is_empty() {
            proof {
                lemma_pending_complete(s, start, i as int, state, token.token_type);
                lemma_pushed_view(tokens@, token);
                assert((token_views(tokens@) + seq![token@]) + tokens_from(s, i as int)
                    =~= token_views(tokens@) + (seq![token@] + tokens_from(s, i as int)));
            }
            tokens.push(token);
        }
        proof {
            assert(tokens_from(s, i as int) =~= Seq::<TokenView>::empty());
            assert(token_views(tokens@) =~= token_views(tokens@) + tokens_from(s, i as int));
        }
        SimpleTokenReader::new(tokens)
    }
}

/// The views of a sequence with one more token are the views with one more.
proof fn lemma_pushed_view(v: Seq<SimpleToken>, t: SimpleToken)
    ensures
        token_views(v.push(t)) == token_views(v) + seq![t@],
{
    assert(token_views(v.push(t)) =~= token_views(v) + seq![t@]);
}

/// A cursor over a sequence of tokens.
pub struct SimpleTokenReader {
    pos: usize,
    tokens: Vec<SimpleToken>,
}

impl SimpleTokenReader {
    /// The tokens that the cursor runs over.
    pub closed spec fn tokens(&self) -> Seq<TokenView> {
        token_views(self.tokens@)
    }

    /// The index of the token that the cursor stands at.
    pub closed spec fn position(&self) -> int {
        self.pos as int
    }

    /// The cursor stands at a token or just behind the last.
    pub open spec fn wf(&self) -> bool {
        0 <= self.position() <= self.tokens().len()
    }

    /// A cursor at the first of `tokens`.
    pub fn new(tokens: Vec<SimpleToken>) -> (r: Self)
        ensures
            r.tokens() == token_views(tokens@),
            r.position() == 0,
            r.wf(),
    {
        SimpleTokenReader { pos: 0, tokens }
    }

}

impl TokenReader for SimpleTokenReader {
    /// The token at the cursor, which then moves on by one; `None`, and no
    /// move, behind the last token.
    fn read(&mut self) -> (r: Option<SimpleToken>)
        ensures
            old(self).wf() ==> final(self).wf(),
            final(self).tokens() == old(self).tokens(),
            old(self).position() < old(self).tokens().len() ==> {
                &&& r.is_some()
                &&& r.unwrap()@ == old(self).tokens()[old(self).position()]
                &&& final(self).position() == old(self).position() + 1
            },
            old(self).position() >= old(self).tokens().len() ==> {
                &&& r.is_none()
                &&& final(self).position() == old(self).position()
            },
    {
        if self.pos < self.tokens.len() {
            let token = self.tokens[self.pos].clone();
            self.pos = self.pos + 1;
            Some(token)
        } else {
            None
        }
    }

    /// A copy of the token at the cursor; `None` behind the last token.
    fn peek(&self) -> (r: Option<SimpleToken>)
        ensures
            self.position() < self.tokens().len() ==> r.is_some() && r.unwrap()@
                == self.tokens()[self.position()],
            self.position() >= self.tokens().len() ==> r.is_none(),
    {
        if self.pos < self.tokens.len() {
            Some(self.tokens[self.pos].clone())
        } else {
            None
        }
    }

    /// Moves the cursor back by one, but only from a position above 1.
    fn unread(&mut self)
        ensures
            old(self).wf() ==> final(self).wf(),
            final(self).tokens() == old(self).tokens(),
            final(self).position() == (if old(self).position() > 1 {
                old(self).position() - 1
            } else {
                old(self).position()
            }),
    {
        if self.pos > 1 {
            self.pos = self.pos - 1;
        }
    }

    /// The index of the token at the cursor.
    fn get_position(&self) -> (r: usize)
        ensures
            r == self.position(),
    {
        self.pos
    }

    /// Moves the cursor to `pos` where a token stands there; elsewhere the
    /// cursor stays.
    fn set_position(&mut self, pos: usize)
        ensures
            old(self).wf() ==> final(self).wf(),
            final(self).tokens() == old(self).tokens(),
            final(self).position() == (if pos < old(self).tokens().len() {
                pos as int
            } else {
                old(self).position()
            }),
    {
        if pos < self.tokens.len() {
            self.pos = pos;
        }
    }
}

} // verus!
