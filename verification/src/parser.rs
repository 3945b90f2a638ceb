//! Tokens, and the keywords that stand for token sequences.

use vstd::prelude::*;
use vstd::hash_map::StringHashMap;
use vstd::string::StringExecFns;
use crate::MAX_NUMBER_INPUT;
use crate::errors::{Fault, LambdaError};
use crate::patterns::{
    compile, find_all, is_match, pattern_compiles, pattern_found, pattern_matches, texts,
};
use crate::text::{
    decimal_value, is_number, is_numeral, lemma_trim_twice, number_value, trim, trim_text,
};

verus! {

/// A token of an expression.
#[derive(Clone, Debug, PartialEq, Eq)]
pub enum Token {
    /// A group opens.
    Open,
    /// A group closes.
    Close,
    /// A name that refers to a variable.
    Var(String),
    /// A name that an abstraction binds.
    Func(String),
}

/// A token as a mathematical value.
pub enum Lexical {
    Open,
    Close,
    Var(Seq<char>),
    Func(Seq<char>),
}

impl View for Token {
    type V = Lexical;

    open spec fn view(&self) -> Lexical {
        match self {
            Token::Open => Lexical::Open,
            Token::Close => Lexical::Close,
            Token::Var(s) => Lexical::Var(s@),
            Token::Func(s) => Lexical::Func(s@),
        }
    }
}

/// The tokens held by a vector.
pub open spec fn lexicals(tokens: Seq<Token>) -> Seq<Lexical> {
    Seq::new(tokens.len(), |i: int| tokens[i]@)
}

/// A piece of an expression's text, with what the pattern of variable names
/// says of it.
#[derive(Clone, Debug, PartialEq, Eq)]
pub struct Lexeme {
    pub text: String,
    pub variable: bool,
}

/// A lexeme as a mathematical value.
pub struct Word {
    pub text: Seq<char>,
    pub variable: bool,
}

impl View for Lexeme {
    type V = Word;

    open spec fn view(&self) -> Word {
        Word { text: self.text@, variable: self.variable }
    }
}

/// The words held by a vector of lexemes.
pub open spec fn words(lexemes: Seq<Lexeme>) -> Seq<Word> {
    Seq::new(lexemes.len(), |i: int| lexemes[i]@)
}

/// The pattern that cuts a text into lexemes: a parenthesis, a lambda or a
/// dot; digits; operator signs; or a character that is no white space with
/// the word characters behind it.
pub open spec fn lexeme_pattern() -> Seq<char> {
    "([()λ.]|[0-9]+|[+\\-*/%^&|!?<>=]+|\\S\\w*)"@
}

/// The pattern of a variable name: a letter, then word characters.
pub open spec fn variable_pattern() -> Seq<char> {
    "\\A[a-zA-Z]\\w*\\z"@
}

/// The pattern of a keyword: operator signs, or a variable name.
pub open spec fn keyword_pattern() -> Seq<char> {
    "\\A[+\\-*/%^&|!?<>=]+\\z|\\A[a-zA-Z]\\w*\\z"@
}

/// The lexeme pattern, as the `regex` crate reads it.
fn lexemes_of_text() -> (p: &'static str)
    ensures
        p@ == lexeme_pattern(),
{
    "([()λ.]|[0-9]+|[+\\-*/%^&|!?<>=]+|\\S\\w*)"
}

/// The pattern of a variable name, as the `regex` crate reads it.
fn variables() -> (p: &'static str)
    ensures
        p@ == variable_pattern(),
{
    "\\A[a-zA-Z]\\w*\\z"
}

/// The pattern of a keyword, as the `regex` crate reads it.
fn keywords_of_text() -> (p: &'static str)
    ensures
        p@ == keyword_pattern(),
{
    "\\A[+\\-*/%^&|!?<>=]+\\z|\\A[a-zA-Z]\\w*\\z"
}

/// The words of a text: each match of the lexeme pattern in the trimmed text,
/// trimmed, with whether it is a variable name.
pub open spec fn words_of(text: Seq<char>) -> Seq<Word> {
    let found = pattern_matches(lexeme_pattern(), trim_text(text));
    Seq::new(
        found.len(),
        |i: int|
            Word {
                text: trim_text(found[i]),
                variable: pattern_found(variable_pattern(), trim_text(found[i])),
            },
    )
}

/// Whether the `regex` crate compiles the two patterns that cut a text into
/// words.
pub open spec fn can_cut() -> bool {
    pattern_compiles(lexeme_pattern()) && pattern_compiles(variable_pattern())
}

/// The state of the tokenizer between two words.
pub struct Scanning {
    /// The tokens so far.
    pub tokens: Seq<Lexical>,
    /// A lambda has been read and its parameter is due.
    pub expecting_variable: bool,
    /// A parameter has been read and the dot is due.
    pub expecting_point: bool,
    /// How many groups are open.
    pub depth: nat,
}

/// `name` as it stands in a token: inside the body of the keyword `key` it
/// carries that keyword as its hygiene qualifier.
pub open spec fn qualified(key: Option<Seq<char>>, name: Seq<char>) -> Seq<char> {
    match key {
        Some(k) => "$"@ + k + "$"@ + name,
        None => name,
    }
}

/// The first parameter of a numeral's abstraction.
pub open spec fn church_f() -> Seq<char> {
    "$#$f"@
}

/// The second parameter of a numeral's abstraction.
pub open spec fn church_x() -> Seq<char> {
    "$#$x"@
}

/// `m` times a use of the first parameter followed by an opening group.
pub open spec fn church_nest(m: nat) -> Seq<Lexical> {
    Seq::new(
        2 * m,
        |i: int|
            if i % 2 == 0 {
                Lexical::Var(church_f())
            } else {
                Lexical::Open
            },
    )
}

/// `m` closing tokens.
pub open spec fn closes(m: nat) -> Seq<Lexical> {
    Seq::new(m, |i: int| Lexical::Close)
}

/// The tokens of the numeral `n`: a group that binds two parameters and
/// applies the first to the second `n` times, each application but the
/// outermost in a group of its own.
pub open spec fn church(n: nat) -> Seq<Lexical> {
    if n == 0 {
        seq![
            Lexical::Open,
            Lexical::Func(church_f()),
            Lexical::Func(church_x()),
            Lexical::Var(church_x()),
            Lexical::Close,
        ]
    } else {
        seq![Lexical::Open, Lexical::Func(church_f()), Lexical::Func(church_x())] + church_nest(
            (n - 1) as nat,
        ) + seq![Lexical::Var(church_f()), Lexical::Var(church_x())] + closes((n - 1) as nat)
            + seq![Lexical::Close]
    }
}

/// The state with the implicit outer group opened, where no token has been
/// read yet.
pub open spec fn opened(st: Scanning) -> Scanning {
    if st.tokens.len() == 0 {
        Scanning {
            tokens: seq![Lexical::Open],
            expecting_variable: st.expecting_variable,
            expecting_point: st.expecting_point,
            depth: st.depth + 1,
        }
    } else {
        st
    }
}

/// Reads `name` as a parameter. A keyword cannot be bound, but for the
/// keyword whose body is being read.
pub open spec fn feed_parameter(
    st: Scanning,
    name: Seq<char>,
    keywords: Map<Seq<char>, Seq<Lexical>>,
    key: Option<Seq<char>>,
) -> Result<Scanning, Fault> {
    if keywords.contains_key(name) && key != Some(name) {
        Err(Fault::ReservedName(name))
    } else {
        Ok(
            Scanning {
                tokens: st.tokens.push(Lexical::Func(qualified(key, name))),
                expecting_variable: false,
                expecting_point: true,
                depth: st.depth,
            },
        )
    }
}

/// Reads a word that is none of the four signs. Where a parameter is due, or
/// where one has been read and the dot is due, a variable name is a
/// parameter. Elsewhere a keyword gives its tokens, a numeral the tokens of
/// its abstraction, and a variable name a reference.
pub open spec fn feed_name(
    st: Scanning,
    w: Word,
    keywords: Map<Seq<char>, Seq<Lexical>>,
    key: Option<Seq<char>>,
) -> Result<Scanning, Fault> {
    if st.expecting_point {
        if w.variable {
            feed_parameter(st, w.text, keywords, key)
        } else {
            Err(Fault::UnexpectedCharacter('.'))
        }
    } else if st.expecting_variable {
        if w.variable {
            feed_parameter(st, w.text, keywords, key)
        } else {
            Err(Fault::InvalidName(w.text))
        }
    } else if keywords.contains_key(w.text) {
        if key == Some(w.text) {
            Err(Fault::ActiveName(w.text))
        } else {
            Ok(
                Scanning {
                    tokens: st.tokens + keywords[w.text],
                    expecting_variable: false,
                    expecting_point: false,
                    depth: st.depth,
                },
            )
        }
    } else if is_numeral(w.text) {
        if decimal_value(w.text) > usize::MAX {
            Err(Fault::InternalFailure)
        } else if decimal_value(w.text) > MAX_NUMBER_INPUT {
            Err(Fault::NumberTooLarge(decimal_value(w.text)))
        } else {
            Ok(
                Scanning {
                    tokens: st.tokens + church(decimal_value(w.text)),
                    expecting_variable: false,
                    expecting_point: false,
                    depth: st.depth,
                },
            )
        }
    } else if w.variable {
        Ok(
            Scanning {
                tokens: opened(st).tokens.push(Lexical::Var(qualified(key, w.text))),
                expecting_variable: false,
                expecting_point: false,
                depth: opened(st).depth,
            },
        )
    } else {
        Err(Fault::InvalidName(w.text))
    }
}

/// The failure of a sign that stands where a parameter or a dot is due.
pub open spec fn misplaced(st: Scanning, sign: char) -> Option<Fault> {
    if st.expecting_variable {
        Some(Fault::InvalidName(seq![sign]))
    } else if st.expecting_point {
        Some(Fault::UnexpectedCharacter(sign))
    } else {
        None
    }
}

/// Reads one word: a parenthesis opens or closes a group, a lambda announces
/// a parameter, a dot ends the parameters, and any other word is a name.
pub open spec fn feed(
    st: Scanning,
    w: Word,
    keywords: Map<Seq<char>, Seq<Lexical>>,
    key: Option<Seq<char>>,
) -> Result<Scanning, Fault> {
    if w.text == seq!['('] {
        match misplaced(st, '(') {
            Some(e) => Err(e),
            None => Ok(
                Scanning {
                    tokens: st.tokens.push(Lexical::Open),
                    expecting_variable: false,
                    expecting_point: false,
                    depth: st.depth + 1,
                },
            ),
        }
    } else if w.text == seq![')'] {
        match misplaced(st, ')') {
            Some(e) => Err(e),
            None => if st.depth == 0 {
                Err(Fault::UnmatchedParenthesis)
            } else {
                Ok(
                    Scanning {
                        tokens: st.tokens.push(Lexical::Close),
                        expecting_variable: false,
                        expecting_point: false,
                        depth: (st.depth - 1) as nat,
                    },
                )
            },
        }
    } else if w.text == seq!['λ'] {
        match misplaced(st, 'λ') {
            Some(e) => Err(e),
            None => Ok(
                Scanning {
                    tokens: opened(st).tokens,
                    expecting_variable: true,
                    expecting_point: false,
                    depth: opened(st).depth,
                },
            ),
        }
    } else if w.text == seq!['.'] {
        if st.expecting_variable {
            Err(Fault::InvalidName(w.text))
        } else if !st.expecting_point {
            Err(Fault::UnexpectedCharacter('.'))
        } else {
            Ok(
                Scanning {
                    tokens: st.tokens,
                    expecting_variable: false,
                    expecting_point: false,
                    depth: st.depth,
                },
            )
        }
    } else {
        feed_name(st, w, keywords, key)
    }
}

/// The state before the first word.
pub open spec fn blank() -> Scanning {
    Scanning { tokens: Seq::empty(), expecting_variable: false, expecting_point: false, depth: 0 }
}

/// The tokens of the words `ws[k..]` read from the state `st`: every group
/// that is still open at the end is closed. An abstraction that the text
/// leaves unfinished is a failure.
pub open spec fn scan_from(
    ws: Seq<Word>,
    k: nat,
    st: Scanning,
    keywords: Map<Seq<char>, Seq<Lexical>>,
    key: Option<Seq<char>>,
) -> Result<Seq<Lexical>, Fault>
    decreases ws.len() - k,
{
    if k >= ws.len() {
        if st.expecting_variable || st.expecting_point {
            Err(Fault::IncompleteFunction)
        } else {
            Ok(st.tokens + closes(st.depth))
        }
    } else {
        match feed(st, ws[k as int], keywords, key) {
            Err(e) => Err(e),
            Ok(next) => scan_from(ws, k + 1, next, keywords, key),
        }
    }
}

/// The tokens of a sequence of words.
pub open spec fn scan_spec(ws: Seq<Word>, keywords: Map<Seq<char>, Seq<Lexical>>, key: Option<Seq<char>>)
    -> Result<Seq<Lexical>, Fault> {
    scan_from(ws, 0, blank(), keywords, key)
}

/// The tokens of a text: those of its words, where the patterns that cut it
/// into words can be compiled; where they cannot, an internal failure.
pub open spec fn tokens_of(text: Seq<char>, keywords: Map<Seq<char>, Seq<Lexical>>, key: Option<Seq<char>>)
    -> Result<Seq<Lexical>, Fault> {
    if can_cut() {
        scan_spec(words_of(text), keywords, key)
    } else {
        Err(Fault::InternalFailure)
    }
}

/// The keywords held by a table of token vectors.
pub open spec fn keyword_table(m: Map<Seq<char>, Vec<Token>>) -> Map<Seq<char>, Seq<Lexical>> {
    Map::new(|k: Seq<char>| m.contains_key(k), |k: Seq<char>| lexicals(m[k]@))
}

/// The tokens of a vector that has got one more.
proof fn lemma_lexicals_push(tokens: Seq<Token>, t: Token)
    ensures
        lexicals(tokens.push(t)) == lexicals(tokens).push(t@),
{
    assert(lexicals(tokens.push(t)) =~= lexicals(tokens).push(t@));
}

/// A copy of a token.
fn copy_token(t: &Token) -> (out: Token)
    ensures
        out@ == t@,
{
    match t {
        Token::Open => Token::Open,
        Token::Close => Token::Close,
        Token::Var(s) => Token::Var(s.clone()),
        Token::Func(s) => Token::Func(s.clone()),
    }
}

/// Appends copies of the tokens `more` to `tokens`.
fn extend_tokens(tokens: &mut Vec<Token>, more: &Vec<Token>)
    ensures
        lexicals(final(tokens)@) == lexicals(old(tokens)@) + lexicals(more@),
        final(tokens)@.len() >= old(tokens)@.len(),
{
    let mut i: usize = 0;
    assert(lexicals(tokens@) =~= lexicals(old(tokens)@) + lexicals(more@).take(0));
    while i < more.len()
        invariant
            i <= more@.len(),
            tokens@.len() >= old(tokens)@.len(),
            lexicals(tokens@) == lexicals(old(tokens)@) + lexicals(more@).take(i as int),
        decreases more@.len() - i,
    {
        let t = copy_token(&more[i]);
        proof {
            lemma_lexicals_push(tokens@, t);
            assert(lexicals(more@).take(i + 1) =~= lexicals(more@).take(i as int).push(t@));
            assert(lexicals(old(tokens)@) + lexicals(more@).take(i + 1) =~= (lexicals(old(tokens)@)
                + lexicals(more@).take(i as int)).push(t@));
        }
        tokens.push(t);
        i += 1;
    }
    assert(lexicals(more@).take(more@.len() as int) =~= lexicals(more@));
}

/// `name` as it stands in a token.
fn qualify(key: Option<&str>, name: &str) -> (out: String)
    ensures
        out@ == qualified(
            match key {
                Some(k) => Some(k@),
                None => None,
            },
            name@,
        ),
{
    match key {
        Some(k) => {
            let mut out = String::from_str("$");
            out.append(k);
            out.append("$");
            out.append(name);
            out
        },
        None => String::from_str(name),
    }
}

/// The tokens of the numeral `n`.
fn church_tokens(tokens: &mut Vec<Token>, n: usize)
    ensures
        lexicals(final(tokens)@) == lexicals(old(tokens)@) + church(n as nat),
        final(tokens)@.len() >= old(tokens)@.len(),
{
    let ghost base = lexicals(tokens@);
    proof {
        lemma_lexicals_push(tokens@, Token::Open);
    }
    tokens.push(Token::Open);
    let f = Token::Func(String::from_str("$#$f"));
    proof {
        lemma_lexicals_push(tokens@, f);
    }
    tokens.push(f);
    let x = Token::Func(String::from_str("$#$x"));
    proof {
        lemma_lexicals_push(tokens@, x);
    }
    tokens.push(x);
    let ghost head = seq![Lexical::Open, Lexical::Func(church_f()), Lexical::Func(church_x())];
    assert(lexicals(tokens@) =~= base + head);
    if n == 0 {
        let v = Token::Var(String::from_str("$#$x"));
        proof {
            lemma_lexicals_push(tokens@, v);
        }
        tokens.push(v);
        proof {
            lemma_lexicals_push(tokens@, Token::Close);
        }
        tokens.push(Token::Close);
        assert(lexicals(tokens@) =~= base + church(0));
        return;
    }
    let mut i: usize = 1;
    assert(lexicals(tokens@) =~= base + head + church_nest(0));
    while i < n
        invariant
            1 <= i <= n,
            tokens@.len() >= old(tokens)@.len(),
            lexicals(tokens@) == base + head + church_nest((i - 1) as nat),
        decreases n - i,
    {
        let v = Token::Var(String::from_str("$#$f"));
        let ghost before = lexicals(tokens@);
        proof {
            lemma_lexicals_push(tokens@, v);
        }
        tokens.push(v);
        proof {
            lemma_lexicals_push(tokens@, Token::Open);
        }
        tokens.push(Token::Open);
        assert(lexicals(tokens@) =~= before.push(Lexical::Var(church_f())).push(Lexical::Open));
        assert(church_nest(i as nat) =~= church_nest((i - 1) as nat).push(
            Lexical::Var(church_f()),
        ).push(Lexical::Open));
        assert(lexicals(tokens@) =~= base + head + church_nest(i as nat));
        i += 1;
    }
    let v = Token::Var(String::from_str("$#$f"));
    proof {
        lemma_lexicals_push(tokens@, v);
    }
    tokens.push(v);
    let v = Token::Var(String::from_str("$#$x"));
    proof {
        lemma_lexicals_push(tokens@, v);
    }
    tokens.push(v);
    let ghost body = base + head + church_nest((n - 1) as nat) + seq![
        Lexical::Var(church_f()),
        Lexical::Var(church_x()),
    ];
    assert(lexicals(tokens@) =~= body);
    let mut j: usize = 1;
    assert(lexicals(tokens@) =~= body + closes(0));
    while j < n
        invariant
            1 <= j <= n,
            tokens@.len() >= old(tokens)@.len(),
            lexicals(tokens@) == body + closes((j - 1) as nat),
        decreases n - j,
    {
        proof {
            lemma_lexicals_push(tokens@, Token::Close);
        }
        tokens.push(Token::Close);
        assert(lexicals(tokens@) =~= body + closes(j as nat));
        j += 1;
    }
    proof {
        lemma_lexicals_push(tokens@, Token::Close);
    }
    tokens.push(Token::Close);
    assert(lexicals(tokens@) =~= base + church(n as nat));
}

/// The tokenizer between two words.
pub struct Scanner {
    pub tokens: Vec<Token>,
    pub expecting_function_variable: bool,
    pub expecting_function_point: bool,
    pub closure_depth: usize,
}

impl View for Scanner {
    type V = Scanning;

    open spec fn view(&self) -> Scanning {
        Scanning {
            tokens: lexicals(self.tokens@),
            expecting_variable: self.expecting_function_variable,
            expecting_point: self.expecting_function_point,
            depth: self.closure_depth as nat,
        }
    }
}

/// The spelling that an optional text holds.
pub open spec fn key_text(key: Option<&str>) -> Option<Seq<char>> {
    match key {
        Some(k) => Some(k@),
        None => None,
    }
}

/// Whether two texts are the same.
fn same_text(a: &str, b: &str) -> (r: bool)
    ensures
        r == (a@ == b@),
{
    let x = String::from_str(a);
    let y = String::from_str(b);
    x == y
}

/// The keywords of a text, and the tokens that each stands for.
pub struct Parser {
    pub keywords: StringHashMap<Vec<Token>>,
}

impl View for Parser {
    type V = Map<Seq<char>, Seq<Lexical>>;

    open spec fn view(&self) -> Map<Seq<char>, Seq<Lexical>> {
        keyword_table(self.keywords@)
    }
}

impl Scanner {
    /// No more groups are open than tokens have been read.
    pub open spec fn wf(&self) -> bool {
        self.closure_depth <= self.tokens@.len()
    }

    /// Opens the implicit outer group where no token has been read yet.
    fn open_outer(&mut self)
        requires
            old(self).wf(),
        ensures
            final(self).wf(),
            final(self)@ == opened(old(self)@),
    {
        if self.tokens.len() == 0 {
            proof {
                lemma_lexicals_push(self.tokens@, Token::Open);
            }
            self.tokens.push(Token::Open);
            self.closure_depth += 1;
            assert(lexicals(self.tokens@) =~= seq![Lexical::Open]);
        }
    }

    /// Reads `name` as a parameter.
    fn feed_parameter(&mut self, name: &str, parser: &Parser, key: Option<&str>) -> (r: Result<
        (),
        LambdaError,
    >)
        requires
            old(self).wf(),
        ensures
            final(self).wf(),
            match feed_parameter(old(self)@, name@, parser@, key_text(key)) {
                Ok(st) => r is Ok && final(self)@ == st,
                Err(e) => r is Err && r->Err_0@ == e && final(self)@ == old(self)@,
            },
    {
        let own = match key {
            Some(k) => same_text(k, name),
            None => false,
        };
        if parser.keywords.contains_key(name) && !own {
            return Err(LambdaError::ReservedName(String::from_str(name)));
        }
        let t = Token::Func(qualify(key, name));
        proof {
            lemma_lexicals_push(self.tokens@, t);
        }
        self.tokens.push(t);
        self.expecting_function_variable = false;
        self.expecting_function_point = true;
        Ok(())
    }

    /// Reads a word that is none of the four signs.
    fn feed_name(&mut self, lexeme: &Lexeme, parser: &Parser, key: Option<&str>) -> (r: Result<
        (),
        LambdaError,
    >)
        requires
            old(self).wf(),
        ensures
            final(self).wf(),
            match feed_name(old(self)@, lexeme@, parser@, key_text(key)) {
                Ok(st) => r is Ok && final(self)@ == st,
                Err(e) => r is Err && r->Err_0@ == e && final(self)@ == old(self)@,
            },
    {
        let name = lexeme.text.as_str();
        if self.expecting_function_point {
            if lexeme.variable {
                return self.feed_parameter(name, parser, key);
            }
            return Err(LambdaError::UnexpectedCharacter('.'));
        }
        if self.expecting_function_variable {
            if lexeme.variable {
                return self.feed_parameter(name, parser, key);
            }
            return Err(LambdaError::InvalidName(String::from_str(name)));
        }
        match parser.keywords.get(name) {
            Some(tokens) => {
                let own = match key {
                    Some(k) => same_text(k, name),
                    None => false,
                };
                if own {
                    return Err(LambdaError::ActiveName(String::from_str(name)));
                }
                extend_tokens(&mut self.tokens, tokens);
                return Ok(());
            },
            None => {},
        }
        if is_number(name) {
            match number_value(name) {
                None => Err(LambdaError::InternalFailure),
                Some(num) => {
                    if num > MAX_NUMBER_INPUT {
                        return Err(LambdaError::NumberTooLarge(num));
                    }
                    church_tokens(&mut self.tokens, num);
                    Ok(())
                },
            }
        } else if lexeme.variable {
            self.open_outer();
            let t = Token::Var(qualify(key, name));
            proof {
                lemma_lexicals_push(self.tokens@, t);
            }
            self.tokens.push(t);
            Ok(())
        } else {
            Err(LambdaError::InvalidName(String::from_str(name)))
        }
    }

    /// The failure of a sign that stands where a parameter or a dot is due.
    fn misplaced(&self, sign: char, text: &str) -> (r: Option<LambdaError>)
        requires
            text@ == seq![sign],
        ensures
            match misplaced(self@, sign) {
                Some(e) => r is Some && r->Some_0@ == e,
                None => r is None,
            },
    {
        if self.expecting_function_variable {
            Some(LambdaError::InvalidName(String::from_str(text)))
        } else if self.expecting_function_point {
            Some(LambdaError::UnexpectedCharacter(sign))
        } else {
            None
        }
    }

    /// Reads one word.
    pub fn feed(&mut self, lexeme: &Lexeme, parser: &Parser, key: Option<&str>) -> (r: Result<
        (),
        LambdaError,
    >)
        requires
            old(self).wf(),
        ensures
            final(self).wf(),
            match feed(old(self)@, lexeme@, parser@, key_text(key)) {
                Ok(st) => r is Ok && final(self)@ == st,
                Err(e) => r is Err && r->Err_0@ == e && final(self)@ == old(self)@,
            },
    {
        proof {
            reveal_strlit("(");
            reveal_strlit(")");
            reveal_strlit("λ");
            reveal_strlit(".");
            assert("("@ =~= seq!['(']);
            assert(")"@ =~= seq![')']);
            assert("λ"@ =~= seq!['λ']);
            assert("."@ =~= seq!['.']);
        }
        let word = lexeme.text.as_str();
        if same_text(word, "(") {
            match self.misplaced('(', "(") {
                Some(e) => Err(e),
                None => {
                    proof {
                        lemma_lexicals_push(self.tokens@, Token::Open);
                    }
                    self.tokens.push(Token::Open);
                    assert(self.closure_depth < self.tokens.len());
                    self.closure_depth += 1;
                    Ok(())
                },
            }
        } else if same_text(word, ")") {
            match self.misplaced(')', ")") {
                Some(e) => Err(e),
                None => {
                    if self.closure_depth == 0 {
                        return Err(LambdaError::UnmatchedParenthesis);
                    }
                    proof {
                        lemma_lexicals_push(self.tokens@, Token::Close);
                    }
                    self.closure_depth -= 1;
                    self.tokens.push(Token::Close);
                    Ok(())
                },
            }
        } else if same_text(word, "λ") {
            match self.misplaced('λ', "λ") {
                Some(e) => Err(e),
                None => {
                    self.open_outer();
                    self.expecting_function_variable = true;
                    Ok(())
                },
            }
        } else if same_text(word, ".") {
            if self.expecting_function_variable {
                Err(LambdaError::InvalidName(String::from_str(word)))
            } else if !self.expecting_function_point {
                Err(LambdaError::UnexpectedCharacter('.'))
            } else {
                self.expecting_function_point = false;
                Ok(())
            }
        } else {
            self.feed_name(lexeme, parser, key)
        }
    }
}

impl Parser {
    /// A parser without keywords.
    pub fn new() -> (out: Self)
        ensures
            out@ == Map::<Seq<char>, Seq<Lexical>>::empty(),
    {
        let out = Self { keywords: StringHashMap::new() };
        assert(out@ =~= Map::<Seq<char>, Seq<Lexical>>::empty());
        out
    }

    /// The tokens of a sequence of lexemes. Inside the body of a keyword,
    /// `keyword_name` is that keyword.
    pub fn scan(&self, lexemes: &Vec<Lexeme>, keyword_name: Option<&str>) -> (r: Result<
        Vec<Token>,
        LambdaError,
    >)
        ensures
            match scan_spec(words(lexemes@), self@, key_text(keyword_name)) {
                Ok(tokens) => r is Ok && lexicals(r->Ok_0@) == tokens,
                Err(e) => r is Err && r->Err_0@ == e,
            },
    {
        let ghost ws = words(lexemes@);
        let ghost key = key_text(keyword_name);
        let mut state = Scanner {
            tokens: Vec::new(),
            expecting_function_variable: false,
            expecting_function_point: false,
            closure_depth: 0,
        };
        assert(lexicals(state.tokens@) =~= Seq::<Lexical>::empty());
        let mut k: usize = 0;
        while k < lexemes.len()
            invariant
                k <= lexemes@.len(),
                ws == words(lexemes@),
                key == key_text(keyword_name),
                state.wf(),
                scan_spec(ws, self@, key) == scan_from(ws, k as nat, state@, self@, key),
            decreases lexemes@.len() - k,
        {
            assert(ws[k as int] == lexemes@[k as int]@);
            state.feed(&lexemes[k], self, keyword_name)?;
            k += 1;
        }
        if state.expecting_function_variable || state.expecting_function_point {
            return Err(LambdaError::IncompleteFunction);
        }
        let mut tokens = state.tokens;
        let ghost base = lexicals(tokens@);
        let mut i: usize = 0;
        assert(lexicals(tokens@) =~= base + closes(0));
        while i < state.closure_depth
            invariant
                i <= state.closure_depth,
                lexicals(tokens@) == base + closes(i as nat),
            decreases state.closure_depth - i,
        {
            proof {
                lemma_lexicals_push(tokens@, Token::Close);
            }
            tokens.push(Token::Close);
            assert(lexicals(tokens@) =~= base + closes((i + 1) as nat));
            i += 1;
        }
        Ok(tokens)
    }

    /// The lexemes of a text, as the `regex` crate finds them. Where a
    /// pattern cannot be compiled, and only there, the result is an internal
    /// failure.
    pub fn lexemes(text: &str) -> (r: Result<Vec<Lexeme>, LambdaError>)
        ensures
            match r {
                Ok(found) => can_cut() && words(found@) == words_of(text@),
                Err(e) => !can_cut() && e@ == Fault::InternalFailure,
            },
    {
        let cutter = match compile(lexemes_of_text()) {
            Ok(p) => p,
            Err(_) => {
                return Err(LambdaError::InternalFailure);
            },
        };
        let names = match compile(variables()) {
            Ok(p) => p,
            Err(_) => {
                return Err(LambdaError::InternalFailure);
            },
        };
        let trimmed = trim(text);
        let found = find_all(&cutter, trimmed.as_str());
        let mut out: Vec<Lexeme> = Vec::new();
        let mut k: usize = 0;
        while k < found.len()
            invariant
                k <= found@.len(),
                names@ == variable_pattern(),
                texts(found@) == pattern_matches(lexeme_pattern(), trim_text(text@)),
                out@.len() == k,
                forall|i: int| 0 <= i < k ==> (#[trigger] out@[i])@ == words_of(text@)[i],
            decreases found@.len() - k,
        {
            assert(texts(found@)[k as int] == found@[k as int]@);
            let word = trim(found[k].as_str());
            let variable = is_match(&names, word.as_str());
            out.push(Lexeme { text: word, variable });
            k += 1;
        }
        assert(words(out@) =~= words_of(text@));
        Ok(out)
    }

    /// The tokens of a text. Inside the body of a keyword, `keyword_name` is
    /// that keyword. The `regex` crate cuts the text into words; where its
    /// patterns cannot be compiled, the result is an internal failure.
    pub fn tokenize(&self, text: String, keyword_name: Option<&str>) -> (r: Result<
        Vec<Token>,
        LambdaError,
    >)
        ensures
            match tokens_of(text@, self@, key_text(keyword_name)) {
                Ok(tokens) => r is Ok && lexicals(r->Ok_0@) == tokens,
                Err(e) => r is Err && r->Err_0@ == e,
            },
    {
        let found = Parser::lexemes(text.as_str())?;
        self.scan(&found, keyword_name)
    }
}

/// The tokens that the keyword `name` stands for where its body is
/// `expression`. Neither may be blank; the name must be a keyword by its
/// pattern; the body is read with the keyword as the hygiene qualifier of its
/// names, and must give a token. A pattern that cannot be compiled is an
/// internal failure.
pub open spec fn keyword_tokens(
    keywords: Map<Seq<char>, Seq<Lexical>>,
    name: Seq<char>,
    expression: Seq<char>,
) -> Result<Seq<Lexical>, Fault> {
    if trim_text(name).len() == 0 || trim_text(expression).len() == 0 {
        Err(Fault::InternalFailure)
    } else if !pattern_compiles(keyword_pattern()) {
        Err(Fault::InternalFailure)
    } else if !pattern_found(keyword_pattern(), trim_text(name)) {
        Err(Fault::InvalidKeyword(name))
    } else {
        match tokens_of(expression, keywords, Some(trim_text(name))) {
            Err(e) => Err(e),
            Ok(tokens) => if tokens.len() == 0 {
                Err(Fault::InvalidKeyword(name))
            } else {
                Ok(tokens)
            },
        }
    }
}

impl Parser {
    /// Registers the keyword `name` with the body `expression`. Where that
    /// fails, the keywords are as they were.
    pub fn add_keyword(&mut self, name: String, expression: String) -> (r: Result<(), LambdaError>)
        ensures
            match keyword_tokens(old(self)@, name@, expression@) {
                Ok(tokens) => r is Ok && final(self)@ == old(self)@.insert(name@, tokens),
                Err(e) => r is Err && r->Err_0@ == e && final(self)@ == old(self)@,
            },
    {
        let key = trim(name.as_str());
        let body = trim(expression.as_str());
        if key.as_str().is_empty() || body.as_str().is_empty() {
            return Err(LambdaError::InternalFailure);
        }
        let keywords = match compile(keywords_of_text()) {
            Ok(p) => p,
            Err(_) => {
                return Err(LambdaError::InternalFailure);
            },
        };
        if !is_match(&keywords, key.as_str()) {
            return Err(LambdaError::InvalidKeyword(name));
        }
        let tokens = self.tokenize(expression, Some(key.as_str()))?;
        if tokens.len() == 0 {
            return Err(LambdaError::InvalidKeyword(name));
        }
        let ghost held = lexicals(tokens@);
        self.keywords.insert(name, tokens);
        assert(self@ =~= old(self)@.insert(name@, held));
        Ok(())
    }

    /// Registers the keyword `name`, trimmed, with the body `expression`,
    /// trimmed. The result is the trimmed body where the keyword has been
    /// registered, and empty where it has not.
    pub fn create_keyword(&mut self, name: String, expression: String) -> (out: String)
        ensures
            match keyword_tokens(old(self)@, trim_text(name@), trim_text(expression@)) {
                Ok(tokens) => out@ == trim_text(expression@) && final(self)@ == old(self)@.insert(
                    trim_text(name@),
                    tokens,
                ),
                Err(_) => out@.len() == 0 && final(self)@ == old(self)@,
            },
    {
        let name = trim(name.as_str());
        let expression = trim(expression.as_str());
        if name.as_str().is_empty() || expression.as_str().is_empty() {
            proof {
                lemma_trim_twice(name@);
                lemma_trim_twice(expression@);
            }
            return String::new();
        }
        match self.add_keyword(name, expression.clone()) {
            Err(_) => String::new(),
            Ok(_) => expression,
        }
    }

    /// Takes the keyword `name`, trimmed, away.
    pub fn remove_keyword(&mut self, name: String)
        ensures
            final(self)@ == old(self)@.remove(trim_text(name@)),
    {
        let key = trim(name.as_str());
        self.keywords.remove(key.as_str());
        assert(self@ =~= old(self)@.remove(trim_text(name@)));
    }
}

} // verus!
