//! A stream of groups and garbage.
//!
//! A group is `{`, then groups and garbage separated by commas, then `}`. Garbage
//! is `<`, then anything up to the first `>` that is not cancelled; a `!` inside
//! garbage cancels the byte after it. The text is read as bytes: the bytes of a
//! character that takes several are above the ASCII range and never special.

use vstd::prelude::*;

verus! {

/// The message of the error for a text that does not start with `{` or `<`.
pub const EXPECTED_TOKEN: &'static str = "unexpected character, expecting one of '{' or '<'";

/// The message of the error for a byte inside a group that cannot stand there.
pub const EXPECTED_ITEM: &'static str =
    "unexpected character, expecting one of '{', '<', ',', or '}'";

/// The message of the error for a text that ends inside a group or garbage.
pub const END_OF_FILE: &'static str = "unexpected end-of-file";

/// A group or a piece of garbage, with the text it was read from.
pub enum TokenModel {
    Group { data: Seq<u8>, children: Seq<TokenModel> },
    Garbage { data: Seq<u8> },
}

/// Why a text could not be read: the message, the text from the start of the
/// token that failed, and a column.
pub struct ErrorModel {
    pub msg: Seq<char>,
    pub data: Seq<u8>,
    pub col: nat,
}

/// What reading a token gives: the token and the index behind it, or an error.
pub enum Parsed {
    Token { token: TokenModel, next: int },
    Error { error: ErrorModel },
}

/// The error for a text that ends inside the token that starts at `start`: its
/// column is the number of bytes behind the token's first byte.
pub open spec fn end_of_file(s: Seq<u8>, start: int) -> Parsed {
    Parsed::Error {
        error: ErrorModel {
            msg: END_OF_FILE@,
            data: s.subrange(start, s.len() as int),
            col: (s.len() - start - 1) as nat,
        },
    }
}

/// The index of the `>` that closes garbage whose content starts at `pos`, if
/// there is one.
pub open spec fn garbage_end(s: Seq<u8>, pos: int) -> Option<int>
    decreases s.len() - pos,
{
    if pos < 0 || pos >= s.len() {
        None
    } else if s[pos] == 0x21 {
        if pos + 1 >= s.len() {
            None
        } else {
            garbage_end(s, pos + 2)
        }
    } else if s[pos] == 0x3e {
        Some(pos)
    } else {
        garbage_end(s, pos + 1)
    }
}

/// Reads the garbage that starts with the `<` at `start`.
pub open spec fn parse_garbage(s: Seq<u8>, start: int) -> Parsed {
    match garbage_end(s, start + 1) {
        Some(end) => Parsed::Token {
            token: TokenModel::Garbage { data: s.subrange(start, end + 1) },
            next: end + 1,
        },
        None => end_of_file(s, start),
    }
}

/// Reads the rest of the group that starts with the `{` at `start`, from `pos`
/// on, where `children` have been read already.
pub open spec fn parse_items(s: Seq<u8>, start: int, pos: int, children: Seq<TokenModel>) -> Parsed
    decreases s.len() - pos,
{
    if pos < 0 || pos >= s.len() {
        end_of_file(s, start)
    } else if s[pos] == 0x7b {
        match parse_items(s, pos, pos + 1, seq![]) {
            Parsed::Token { token, next } => if pos < next <= s.len() {
                parse_items(s, start, next, children.push(token))
            } else {
                Parsed::Token { token, next }
            },
            Parsed::Error { error } => Parsed::Error { error },
        }
    } else if s[pos] == 0x3c {
        match parse_garbage(s, pos) {
            Parsed::Token { token, next } => if pos < next <= s.len() {
                parse_items(s, start, next, children.push(token))
            } else {
                Parsed::Token { token, next }
            },
            Parsed::Error { error } => Parsed::Error { error },
        }
    } else if s[pos] == 0x2c {
        parse_items(s, start, pos + 1, children)
    } else if s[pos] == 0x7d {
        Parsed::Token {
            token: TokenModel::Group { data: s.subrange(start, pos + 1), children },
            next: pos + 1,
        }
    } else {
        Parsed::Error {
            error: ErrorModel {
                msg: EXPECTED_ITEM@,
                data: s.subrange(start, s.len() as int),
                col: pos as nat,
            },
        }
    }
}

/// Reads the token at the start of a text. What follows the token is not read.
pub open spec fn parse_token(s: Seq<u8>) -> Parsed {
    if s.len() == 0 {
        Parsed::Error { error: ErrorModel { msg: END_OF_FILE@, data: s, col: 0 } }
    } else if s[0] == 0x7b {
        parse_items(s, 0, 1, seq![])
    } else if s[0] == 0x3c {
        parse_garbage(s, 0)
    } else {
        Parsed::Error { error: ErrorModel { msg: EXPECTED_TOKEN@, data: s, col: 0 } }
    }
}

/// The score of a token at a depth: garbage scores nothing, a group scores its
/// depth and what the tokens in it score one level deeper.
pub open spec fn score_at(token: TokenModel, depth: nat) -> nat
    decreases token, 0nat,
{
    match token {
        TokenModel::Group { data, children } => depth + score_of_first(
            children,
            depth + 1,
            children.len(),
        ),
        TokenModel::Garbage { data } => 0,
    }
}

/// What the first `count` of the tokens score at a depth.
pub open spec fn score_of_first(children: Seq<TokenModel>, depth: nat, count: nat) -> nat
    decreases children, count,
{
    if count == 0 || count > children.len() {
        0
    } else {
        score_of_first(children, depth, (count - 1) as nat) + score_at(
            children[count - 1],
            depth,
        )
    }
}

/// The closing `>` of garbage lies inside the text, at or behind where its
/// content starts.
pub proof fn lemma_garbage_end_bounds(s: Seq<u8>, pos: int)
    requires
        0 <= pos,
    ensures
        garbage_end(s, pos) matches Some(end) ==> pos <= end < s.len() && s[end] == 0x3e,
    decreases s.len() - pos,
{
    if pos < s.len() {
        if s[pos] == 0x21 {
            if pos + 1 < s.len() {
                lemma_garbage_end_bounds(s, pos + 2);
            }
        } else if s[pos] != 0x3e {
            lemma_garbage_end_bounds(s, pos + 1);
        }
    }
}

/// A group that was read ends inside the text, behind where reading went on.
pub proof fn lemma_parse_items_advances(
    s: Seq<u8>,
    start: int,
    pos: int,
    children: Seq<TokenModel>,
)
    requires
        0 <= pos,
    ensures
        parse_items(s, start, pos, children) matches Parsed::Token { token, next } ==> pos < next
            <= s.len(),
    decreases s.len() - pos,
{
    if pos < s.len() {
        if s[pos] == 0x7b {
            lemma_parse_items_advances(s, pos, pos + 1, seq![]);
            match parse_items(s, pos, pos + 1, seq![]) {
                Parsed::Token { token, next } => {
                    lemma_parse_items_advances(s, start, next, children.push(token));
                },
                Parsed::Error { error } => {},
            }
        } else if s[pos] == 0x3c {
            lemma_garbage_end_bounds(s, pos + 1);
            match parse_garbage(s, pos) {
                Parsed::Token { token, next } => {
                    lemma_parse_items_advances(s, start, next, children.push(token));
                },
                Parsed::Error { error } => {},
            }
        } else if s[pos] == 0x2c {
            lemma_parse_items_advances(s, start, pos + 1, children);
        }
    }
}

/// A group or a piece of garbage.
#[derive(Debug, PartialEq)]
pub enum Token {
    Group(Group),
    Garbage(Garbage),
}

/// A group: its text, and the groups and garbage in it.
#[derive(Debug, PartialEq)]
pub struct Group {
    data: Vec<u8>,
    children: Vec<Token>,
}

/// A piece of garbage: its text.
#[derive(Debug, PartialEq)]
pub struct Garbage {
    data: Vec<u8>,
}

/// What a token stands for.
pub closed spec fn token_model(token: Token) -> TokenModel
    decreases token,
{
    match token {
        Token::Group(group) => TokenModel::Group {
            data: group.data@,
            children: Seq::new(
                group.children@.len(),
                |i: int|
                    if 0 <= i < group.children@.len() {
                        token_model(group.children@[i])
                    } else {
                        TokenModel::Garbage { data: seq![] }
                    },
            ),
        },
        Token::Garbage(garbage) => TokenModel::Garbage { data: garbage.data@ },
    }
}

impl View for Token {
    type V = TokenModel;

    open spec fn view(&self) -> TokenModel {
        token_model(*self)
    }
}

impl View for Group {
    type V = TokenModel;

    open spec fn view(&self) -> TokenModel {
        token_model(Token::Group(*self))
    }
}

impl View for Garbage {
    type V = TokenModel;

    open spec fn view(&self) -> TokenModel {
        token_model(Token::Garbage(*self))
    }
}

/// What a list of tokens stands for.
pub open spec fn token_models(tokens: Seq<Token>) -> Seq<TokenModel> {
    Seq::new(tokens.len(), |i: int| tokens[i]@)
}

/// A group stands for its text and what the tokens in it stand for.
proof fn lemma_group_model(group: Group)
    ensures
        group@ == (TokenModel::Group {
            data: group.data@,
            children: token_models(group.children@),
        }),
{
    let children = group@->Group_children;
    assert(children =~= token_models(group.children@));
}

/// Why a text could not be read.
#[derive(Debug)]
pub struct ParseError {
    msg: &'static str,
    data: Vec<u8>,
    col: usize,
}

impl View for ParseError {
    type V = ErrorModel;

    closed spec fn view(&self) -> ErrorModel {
        ErrorModel { msg: self.msg@, data: self.data@, col: self.col as nat }
    }
}

impl ParseError {
    /// An error about `data` as a whole, at column 0.
    pub fn new(data: &[u8], msg: &'static str) -> (error: ParseError)
        ensures
            error@ == (ErrorModel { msg: msg@, data: data@, col: 0 }),
    {
        ParseError { msg, data: vstd::slice::slice_to_vec(data), col: 0 }
    }

    /// An error at the column `col` of `data`, which it takes over.
    pub fn with(data: Vec<u8>, col: usize, msg: &'static str) -> (error: ParseError)
        ensures
            error@ == (ErrorModel { msg: msg@, data: data@, col: col as nat }),
    {
        ParseError { msg, data, col }
    }

    /// An error at the column `col` of `data`.
    pub fn with_str(data: &[u8], col: usize, msg: &'static str) -> (error: ParseError)
        ensures
            error@ == (ErrorModel { msg: msg@, data: data@, col: col as nat }),
    {
        ParseError { msg, data: vstd::slice::slice_to_vec(data), col }
    }

    /// What went wrong.
    pub fn msg(&self) -> (msg: &'static str)
        ensures
            msg@ == self@.msg,
    {
        self.msg
    }

    /// The text from the start of the token that could not be read.
    pub fn data(&self) -> (data: &Vec<u8>)
        ensures
            data@ == self@.data,
    {
        &self.data
    }

    /// The column that the error points at.
    pub fn col(&self) -> (col: usize)
        ensures
            col == self@.col,
    {
        self.col
    }
}

/// Whether what was read is what reading the text gives.
pub open spec fn reads_as(read: Result<(Token, usize), ParseError>, parsed: Parsed) -> bool {
    match read {
        Ok((token, next)) => parsed == (Parsed::Token { token: token@, next: next as int }),
        Err(error) => parsed == (Parsed::Error { error: error@ }),
    }
}

impl Garbage {
    /// The garbage with the given text.
    pub fn new(text: &[u8]) -> (garbage: Garbage)
        ensures
            garbage@ == (TokenModel::Garbage { data: text@ }),
    {
        Garbage { data: vstd::slice::slice_to_vec(text) }
    }

    /// The text of the garbage, from `<` to `>`.
    pub fn data(&self) -> (data: &Vec<u8>)
        ensures
            self@ == (TokenModel::Garbage { data: data@ }),
    {
        &self.data
    }

    /// Reads the garbage that starts with the `<` at `start`, and says where it ends.
    pub fn parse(bytes: &[u8], start: usize) -> (read: Result<(Token, usize), ParseError>)
        requires
            start < bytes@.len(),
        ensures
            reads_as(read, parse_garbage(bytes@, start as int)),
            read matches Ok((token, next)) ==> token is Garbage && start < next <= bytes@.len(),
    {
        let len = bytes.len();
        let mut pos: usize = start + 1;
        while pos < len
            invariant
                start < pos <= len,
                len == bytes@.len(),
                garbage_end(bytes@, start + 1) == garbage_end(bytes@, pos as int),
            decreases len - pos,
        {
            let c = bytes[pos];
            if c == 0x21 {
                if pos + 1 >= len {
                    let data = vstd::slice::slice_to_vec(
                        vstd::slice::slice_subrange(bytes, start, len),
                    );
                    return Err(ParseError::with(data, len - start - 1, END_OF_FILE));
                }
                pos = pos + 2;
            } else if c == 0x3e {
                let data = vstd::slice::slice_to_vec(
                    vstd::slice::slice_subrange(bytes, start, pos + 1),
                );
                return Ok((Token::Garbage(Garbage { data }), pos + 1));
            } else {
                pos = pos + 1;
            }
        }
        let data = vstd::slice::slice_to_vec(vstd::slice::slice_subrange(bytes, start, len));
        Err(ParseError::with(data, len - start - 1, END_OF_FILE))
    }
}

impl Group {
    /// The text of the group, from `{` to `}`.
    pub fn data(&self) -> (data: &Vec<u8>)
        ensures
            self@ matches TokenModel::Group { data: text, children } && text == data@,
    {
        proof {
            lemma_group_model(*self);
        }
        &self.data
    }

    /// The groups and the garbage in the group.
    pub fn children(&self) -> (children: &Vec<Token>)
        ensures
            self@ matches TokenModel::Group { data, children: inner } && inner == token_models(
                children@,
            ),
    {
        proof {
            lemma_group_model(*self);
        }
        &self.children
    }

    /// Reads the group that starts with the `{` at `start`, and says where it ends.
    pub fn parse(bytes: &[u8], start: usize) -> (read: Result<(Token, usize), ParseError>)
        requires
            start < bytes@.len(),
        ensures
            reads_as(read, parse_items(bytes@, start as int, start + 1, seq![])),
            read matches Ok((token, next)) ==> token is Group && start < next <= bytes@.len(),
        decreases bytes@.len() - start,
    {
        let len = bytes.len();
        let mut children: Vec<Token> = Vec::new();
        let mut pos: usize = start + 1;
        assert(token_models(children@) == Seq::<TokenModel>::empty());
        while pos < len
            invariant
                start < pos <= len,
                len == bytes@.len(),
                parse_items(bytes@, start as int, start + 1, seq![]) == parse_items(
                    bytes@,
                    start as int,
                    pos as int,
                    token_models(children@),
                ),
            decreases len - pos,
        {
            let c = bytes[pos];
            let ghost before = token_models(children@);
            if c == 0x7b {
                proof {
                    lemma_parse_items_advances(bytes@, pos as int, pos + 1, seq![]);
                }
                match Group::parse(bytes, pos) {
                    Ok((token, next)) => {
                        children.push(token);
                        assert(token_models(children@) == before.push(token@));
                        pos = next;
                    },
                    Err(error) => {
                        return Err(error);
                    },
                }
            } else if c == 0x3c {
                match Garbage::parse(bytes, pos) {
                    Ok((token, next)) => {
                        children.push(token);
                        assert(token_models(children@) == before.push(token@));
                        pos = next;
                    },
                    Err(error) => {
                        return Err(error);
                    },
                }
            } else if c == 0x2c {
                pos = pos + 1;
            } else if c == 0x7d {
                let data = vstd::slice::slice_to_vec(
                    vstd::slice::slice_subrange(bytes, start, pos + 1),
                );
                let group = Group { data, children };
                proof {
                    lemma_group_model(group);
                }
                return Ok((Token::Group(group), pos + 1));
            } else {
                let data = vstd::slice::slice_to_vec(
                    vstd::slice::slice_subrange(bytes, start, len),
                );
                return Err(ParseError::with(data, pos, EXPECTED_ITEM));
            }
        }
        let data = vstd::slice::slice_to_vec(vstd::slice::slice_subrange(bytes, start, len));
        Err(ParseError::with(data, len - start - 1, END_OF_FILE))
    }
}

impl Token {
    /// Reads the token at the start of the text. What follows the token is not read.
    pub fn parse(bytes: &[u8]) -> (read: Result<Token, ParseError>)
        ensures
            match read {
                Ok(token) => parse_token(bytes@) matches Parsed::Token { token: model, next }
                    && model == token@,
                Err(error) => parse_token(bytes@) == (Parsed::Error { error: error@ }),
            },
    {
        if bytes.len() == 0 {
            return Err(ParseError::with_str(bytes, 0, END_OF_FILE));
        }
        let c = bytes[0];
        let read = if c == 0x7b {
            Group::parse(bytes, 0)
        } else if c == 0x3c {
            Garbage::parse(bytes, 0)
        } else {
            return Err(ParseError::with_str(bytes, 0, EXPECTED_TOKEN));
        };
        match read {
            Ok((token, next)) => Ok(token),
            Err(error) => Err(error),
        }
    }

    /// The score of the token as the outermost one, if it fits the result type:
    /// every group scores its depth, the outermost group the depth 1.
    pub fn checked_score(&self) -> (score: Option<usize>)
        ensures
            match score {
                Some(s) => s == score_at(self@, 1),
                None => score_at(self@, 1) > usize::MAX,
            },
    {
        self._score(1)
    }

    /// The score of the token as the outermost one: every group scores its depth,
    /// the outermost group the depth 1. The score has to fit the result type.
    pub fn score(&self) -> (score: usize)
        requires
            score_at(self@, 1) <= usize::MAX,
        ensures
            score == score_at(self@, 1),
    {
        self._score(1).unwrap()
    }

    /// The score of the token at a depth, if it fits the result type.
    fn _score(&self, depth: usize) -> (score: Option<usize>)
        ensures
            match score {
                Some(s) => s == score_at(self@, depth as nat),
                None => score_at(self@, depth as nat) > usize::MAX,
            },
        decreases self,
    {
        match self {
            Token::Group(group) => {
                proof {
                    lemma_group_model(*group);
                }
                let ghost inner = token_models(group.children@);
                let mut score: usize = depth;
                let mut i: usize = 0;
                while i < group.children.len()
                    invariant
                        i <= group.children.len(),
                        *self == Token::Group(*group),
                        inner == token_models(group.children@),
                        score == depth + score_of_first(inner, (depth + 1) as nat, i as nat),
                        score_at(self@, depth as nat) == depth + score_of_first(
                            inner,
                            (depth + 1) as nat,
                            inner.len(),
                        ),
                    decreases group.children.len() - i,
                {
                    proof {
                        lemma_score_of_first_grows(
                            inner,
                            (depth + 1) as nat,
                            (i + 1) as nat,
                            inner.len(),
                        );
                    }
                    let child = &group.children[i];
                    match child {
                        Token::Group(inner_group) => {
                            proof {
                                lemma_group_model(*inner_group);
                                assert(inner[i as int] == child@);
                                assert(score_at(child@, (depth + 1) as nat) >= depth + 1);
                                assert(decreases_to!(*self => self->Group_0));
                                assert(decreases_to!(*group => group.children));
                                assert(decreases_to!(group.children => group.children@));
                                assert(decreases_to!(group.children@ => group.children@[i as int]));
                            }
                            let deeper = match depth.checked_add(1) {
                                Some(deeper) => deeper,
                                None => {
                                    return None;
                                },
                            };
                            let more = match child._score(deeper) {
                                Some(more) => more,
                                None => {
                                    return None;
                                },
                            };
                            score = match score.checked_add(more) {
                                Some(sum) => sum,
                                None => {
                                    return None;
                                },
                            };
                        },
                        Token::Garbage(_) => {
                            proof {
                                assert(inner[i as int] == child@);
                            }
                        },
                    }
                    i = i + 1;
                }
                Some(score)
            },
            Token::Garbage(_) => Some(0),
        }
    }
}

impl std::str::FromStr for Token {
    type Err = ParseError;

    /// Reads the token at the start of the string, from the bytes that encode the
    /// string. What follows the token is not read.
    fn from_str(s: &str) -> (read: Result<Self, Self::Err>)
        ensures
            match read {
                Ok(token) => parse_token(vstd::utf8::encode_utf8(s@)) matches Parsed::Token {
                    token: model,
                    next,
                } && model == token@,
                Err(error) => parse_token(vstd::utf8::encode_utf8(s@)) == (Parsed::Error {
                    error: error@,
                }),
            },
    {
        Token::parse(s.as_bytes())
    }
}

/// What fewer of the tokens score is never more.
pub proof fn lemma_score_of_first_grows(
    children: Seq<TokenModel>,
    depth: nat,
    fewer: nat,
    more: nat,
)
    requires
        fewer <= more <= children.len(),
    ensures
        score_of_first(children, depth, fewer) <= score_of_first(children, depth, more),
    decreases more,
{
    if fewer < more {
        lemma_score_of_first_grows(children, depth, fewer, (more - 1) as nat);
    }
}

} // verus!
