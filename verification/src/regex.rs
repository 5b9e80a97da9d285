//! Tokenizer and recursive-descent parser for the pattern grammar:
//! literal runs, grouping `(...)`, postfix `*`, concatenation by
//! juxtaposition, and alternation `|`.
use vstd::prelude::*;

verus! {

/// Abstract syntax tree of a pattern, the parser's result.
#[derive(Debug)]
pub struct Regex {
    pub root: RegexNode,
}

#[derive(Debug)]
pub enum RegexNode {
    Atom(RegexAtom),
    Repeat(Box<RegexRepeat>),
    Or(Box<RegexOr>),
    Join(Box<RegexJoin>),
}

/// A literal run of characters matched in sequence.
#[derive(Debug)]
pub struct RegexAtom {
    pub literal: String,
}

/// Zero or more repetitions of `pattern` (postfix `*`).
#[derive(Debug)]
pub struct RegexRepeat {
    pub pattern: RegexNode,
}

/// Alternation: `left | right`.
#[derive(Debug)]
pub struct RegexOr {
    pub left: RegexNode,
    pub right: RegexNode,
}

/// Concatenation: `left` followed by `right`.
#[derive(Debug)]
pub struct RegexJoin {
    pub left: RegexNode,
    pub right: RegexNode,
}

/// How a parse can fail. Lowering and determinization never fail.
#[derive(Debug, PartialEq, Eq, Structural, Clone, Copy)]
pub enum Error {
    /// No tokens were available to parse at all.
    Empty,
    /// Input ended while a construct expected more.
    UnexpectedEnd,
    /// A token appeared where no production accepts it.
    UnexpectedToken,
}

#[derive(Debug, PartialEq, Eq)]
pub enum Token {
    Literal(String),
    LParen,
    RParen,
    Asterisk,
    VerticalBar,
}

/// The four characters that end a literal run and form one-character tokens.
pub open spec fn is_special(c: char) -> bool {
    c == '(' || c == ')' || c == '*' || c == '|'
}

/// Length of the maximal special-character-free prefix of `s`.
pub open spec fn lit_len(s: Seq<char>) -> nat
    decreases s.len(),
{
    if s.len() == 0 {
        0
    } else if is_special(s[0]) {
        0
    } else {
        1 + lit_len(s.drop_first())
    }
}

proof fn lemma_lit_len_at(s: Seq<char>, i: int)
    requires
        0 <= i <= s.len(),
        forall|k: int| 0 <= k < i ==> !is_special(s[k]),
        i == s.len() || is_special(s[i]),
    ensures
        lit_len(s) == i,
    decreases s.len(),
{
    if s.len() == 0 {
    } else if i == 0 {
    } else {
        assert(!is_special(s[0]));
        let t = s.drop_first();
        assert(forall|k: int| 0 <= k < i - 1 ==> t[k] == s[k + 1] && !is_special(t[k]));
        lemma_lit_len_at(t, i - 1);
    }
}

/// What `take_token` returns, stated over the view of the input:
/// `None` exactly on empty input; otherwise the first token and the
/// remaining characters after it.
pub open spec fn token_of(s: Seq<char>, t: Token, rest: Seq<char>) -> bool {
    &&& s.len() > 0
    &&& match t {
        Token::LParen => s[0] == '(' && rest == s.drop_first(),
        Token::RParen => s[0] == ')' && rest == s.drop_first(),
        Token::Asterisk => s[0] == '*' && rest == s.drop_first(),
        Token::VerticalBar => s[0] == '|' && rest == s.drop_first(),
        Token::Literal(l) => {
            &&& !is_special(s[0])
            &&& l@ == s.subrange(0, lit_len(s) as int)
            &&& rest == s.subrange(lit_len(s) as int, s.len() as int)
        },
    }
}

/// Splits off the next token: a special character is a one-character
/// token of its kind; otherwise the maximal run of ordinary characters
/// is a `Literal`. Returns `None` exactly at end of input.
pub fn take_token(s: &str) -> (r: Option<(Token, &str)>)
    ensures
        r is None <==> s@.len() == 0,
        match r {
            None => s@.len() == 0,
            Some((t, rest)) => token_of(s@, t, rest@) && rest@.len() < s@.len(),
        },
        match r {
            None => spec_take_token(s@) == Option::<(TokenView, Seq<char>)>::None,
            Some((t, rest)) => spec_take_token(s@) == Option::Some((token_view(t), rest@)),
        },
{
    let n = s.unicode_len();
    if n == 0 {
        return None;
    }
    let c = s.get_char(0);
    if c == '(' {
        Some((Token::LParen, s.substring_char(1, n)))
    } else if c == ')' {
        Some((Token::RParen, s.substring_char(1, n)))
    } else if c == '*' {
        Some((Token::Asterisk, s.substring_char(1, n)))
    } else if c == '|' {
        Some((Token::VerticalBar, s.substring_char(1, n)))
    } else {
        let mut i: usize = 1;
        while i < n
            invariant
                1 <= i <= n,
                n == s@.len(),
                forall|k: int| 0 <= k < i ==> !is_special(s@[k]),
            ensures
                1 <= i <= n,
                forall|k: int| 0 <= k < i ==> !is_special(s@[k]),
                i == n || is_special(s@[i as int]),
            decreases n - i,
        {
            let d = s.get_char(i);
            if d == '(' || d == ')' || d == '*' || d == '|' {
                break;
            }
            i += 1;
        }
        proof {
            lemma_lit_len_at(s@, i as int);
            assert(s@.drop_first() =~= s@.subrange(1, s@.len() as int));
        }
        let lit = s.substring_char(0, i);
        let rest = s.substring_char(i, n);
        Some((Token::Literal(lit.to_owned()), rest))
    }
}

/// Structural equality of two tokens, comparing literal text by content.
pub open spec fn same_token(a: Token, b: Token) -> bool {
    match (a, b) {
        (Token::Literal(x), Token::Literal(y)) => x@ == y@,
        (Token::LParen, Token::LParen) => true,
        (Token::RParen, Token::RParen) => true,
        (Token::Asterisk, Token::Asterisk) => true,
        (Token::VerticalBar, Token::VerticalBar) => true,
        _ => false,
    }
}

fn token_eq(a: &Token, b: &Token) -> (r: bool)
    ensures
        r == same_token(*a, *b),
{
    match (a, b) {
        (Token::Literal(x), Token::Literal(y)) => *x == *y,
        (Token::LParen, Token::LParen) => true,
        (Token::RParen, Token::RParen) => true,
        (Token::Asterisk, Token::Asterisk) => true,
        (Token::VerticalBar, Token::VerticalBar) => true,
        _ => false,
    }
}

/// A token over character sequences: the tokenizer's result at the
/// specification level.
pub enum TokenView {
    Literal(Seq<char>),
    LParen,
    RParen,
    Asterisk,
    VerticalBar,
}

/// An abstract syntax tree over character sequences: the parser's
/// result at the specification level.
pub enum NodeView {
    Atom(Seq<char>),
    Repeat(Box<NodeView>),
    Or(Box<NodeView>, Box<NodeView>),
    Join(Box<NodeView>, Box<NodeView>),
}

pub open spec fn token_view(t: Token) -> TokenView {
    match t {
        Token::Literal(l) => TokenView::Literal(l@),
        Token::LParen => TokenView::LParen,
        Token::RParen => TokenView::RParen,
        Token::Asterisk => TokenView::Asterisk,
        Token::VerticalBar => TokenView::VerticalBar,
    }
}

pub open spec fn node_view(n: RegexNode) -> NodeView
    decreases n,
{
    match n {
        RegexNode::Atom(a) => NodeView::Atom(a.literal@),
        RegexNode::Repeat(b) => NodeView::Repeat(Box::new(node_view(b.pattern))),
        RegexNode::Or(b) => NodeView::Or(
            Box::new(node_view(b.left)),
            Box::new(node_view(b.right)),
        ),
        RegexNode::Join(b) => NodeView::Join(
            Box::new(node_view(b.left)),
            Box::new(node_view(b.right)),
        ),
    }
}

pub open spec fn term_view(t: Option<&Token>) -> Option<TokenView> {
    match t {
        Option::Some(tok) => Option::Some(token_view(*tok)),
        Option::None => Option::None,
    }
}

/// The tokenizer at the specification level: what `take_token` returns,
/// as a total function of the input.
pub open spec fn spec_take_token(s: Seq<char>) -> Option<(TokenView, Seq<char>)> {
    if s.len() == 0 {
        Option::None
    } else if s[0] == '(' {
        Option::Some((TokenView::LParen, s.drop_first()))
    } else if s[0] == ')' {
        Option::Some((TokenView::RParen, s.drop_first()))
    } else if s[0] == '*' {
        Option::Some((TokenView::Asterisk, s.drop_first()))
    } else if s[0] == '|' {
        Option::Some((TokenView::VerticalBar, s.drop_first()))
    } else {
        Option::Some(
            (
                TokenView::Literal(s.subrange(0, lit_len(s) as int)),
                s.subrange(lit_len(s) as int, s.len() as int),
            ),
        )
    }
}

/// One outcome of the specification parser. `Spent` is exhausted fuel,
/// which never arises at the fuel `parse_fuel` grants.
pub enum ParseStep {
    Spent,
    Failed(Error),
    Done(NodeView, Seq<char>),
}

/// Fuel that always suffices: each character costs at most three calls.
pub open spec fn parse_fuel(s: Seq<char>) -> nat {
    3 * s.len() + 1
}

/// The grammar of patterns, written as the deterministic recursive
/// descent it denotes: take a primary (a literal run, or a `(`-group
/// whose inner expression is parsed with no stop token and must be
/// followed by `)`); any other first token is rejected. The primary
/// then flows through `spec_parse_star` and `spec_parse_tail`.
pub open spec fn spec_parse(s: Seq<char>, term: Option<TokenView>, fuel: nat) -> ParseStep
    decreases fuel,
{
    if fuel == 0 {
        ParseStep::Spent
    } else {
        match spec_take_token(s) {
            Option::None => ParseStep::Failed(Error::Empty),
            Option::Some((t, rest)) => match t {
                TokenView::Literal(l) => spec_parse_star(
                    NodeView::Atom(l),
                    rest,
                    term,
                    (fuel - 1) as nat,
                ),
                TokenView::LParen => match spec_parse(rest, Option::None, (fuel - 1) as nat) {
                    ParseStep::Spent => ParseStep::Spent,
                    ParseStep::Failed(e) => ParseStep::Failed(e),
                    ParseStep::Done(p, rest2) => match spec_take_token(rest2) {
                        Option::Some((TokenView::RParen, rest3)) => spec_parse_star(
                            p,
                            rest3,
                            term,
                            (fuel - 1) as nat,
                        ),
                        Option::Some(_) => ParseStep::Failed(Error::UnexpectedToken),
                        Option::None => ParseStep::Failed(Error::UnexpectedEnd),
                    },
                },
                _ => ParseStep::Failed(Error::UnexpectedToken),
            },
        }
    }
}

/// Postfix `*` binds to the primary just parsed, at most once here; a
/// second consecutive `*` falls through to the tail, whose
/// concatenation branch then rejects it.
pub open spec fn spec_parse_star(
    node: NodeView,
    s: Seq<char>,
    term: Option<TokenView>,
    fuel: nat,
) -> ParseStep
    decreases fuel,
{
    if fuel == 0 {
        ParseStep::Spent
    } else {
        match spec_take_token(s) {
            Option::Some((TokenView::Asterisk, r)) => spec_parse_tail(
                NodeView::Repeat(Box::new(node)),
                r,
                term,
                (fuel - 1) as nat,
            ),
            _ => spec_parse_tail(node, s, term, (fuel - 1) as nat),
        }
    }
}

/// The tail loop: stop (without consuming) at end of input, at the
/// caller's stop token, or at `)`; after `|` parse the right side with
/// no stop token, turning its `Empty` into `UnexpectedEnd`; anything
/// else concatenates, parsing the right side with stop token `|`.
pub open spec fn spec_parse_tail(
    node: NodeView,
    s: Seq<char>,
    term: Option<TokenView>,
    fuel: nat,
) -> ParseStep
    decreases fuel,
{
    if fuel == 0 {
        ParseStep::Spent
    } else {
        match spec_take_token(s) {
            Option::None => ParseStep::Done(node, s),
            Option::Some((t, r)) => {
                if term == Option::Some(t) {
                    ParseStep::Done(node, s)
                } else if t is VerticalBar {
                    match spec_parse(r, Option::None, (fuel - 1) as nat) {
                        ParseStep::Spent => ParseStep::Spent,
                        ParseStep::Failed(Error::Empty) => ParseStep::Failed(Error::UnexpectedEnd),
                        ParseStep::Failed(e) => ParseStep::Failed(e),
                        ParseStep::Done(right, r2) => spec_parse_tail(
                            NodeView::Or(Box::new(node), Box::new(right)),
                            r2,
                            term,
                            (fuel - 1) as nat,
                        ),
                    }
                } else if t is RParen {
                    ParseStep::Done(node, s)
                } else {
                    match spec_parse(s, Option::Some(TokenView::VerticalBar), (fuel - 1) as nat) {
                        ParseStep::Spent => ParseStep::Spent,
                        ParseStep::Failed(e) => ParseStep::Failed(e),
                        ParseStep::Done(right, r2) => spec_parse_tail(
                            NodeView::Join(Box::new(node), Box::new(right)),
                            r2,
                            term,
                            (fuel - 1) as nat,
                        ),
                    }
                }
            },
        }
    }
}

/// The literal run never runs past the end of the input.
proof fn lemma_lit_len_le(s: Seq<char>)
    ensures
        lit_len(s) <= s.len(),
    decreases s.len(),
{
    if s.len() > 0 && !is_special(s[0]) {
        lemma_lit_len_le(s.drop_first());
    }
}

/// Taking a token always consumes at least one character.
proof fn lemma_spec_take_token_len(s: Seq<char>)
    ensures
        spec_take_token(s) matches Option::Some(p) ==> p.1.len() < s.len(),
{
    if s.len() > 0 {
        if !(s[0] == '(' || s[0] == ')' || s[0] == '*' || s[0] == '|') {
            assert(!is_special(s[0]));
            assert(lit_len(s) >= 1);
            lemma_lit_len_le(s);
            assert(s.subrange(lit_len(s) as int, s.len() as int).len() < s.len());
        } else {
            assert(s.drop_first().len() < s.len());
        }
    }
}

/// Equal token content means equal views and conversely.
proof fn lemma_same_token_view(a: Token, b: Token)
    ensures
        same_token(a, b) <==> token_view(a) == token_view(b),
{
}

/// A successful step leaves strictly less input at the primary level
/// and no more input at the star and tail levels.
proof fn lemma_parse_progress(s: Seq<char>, term: Option<TokenView>, fuel: nat)
    ensures
        spec_parse(s, term, fuel) matches ParseStep::Done(n, r) ==> r.len() < s.len(),
    decreases fuel,
{
    if fuel > 0 {
        match spec_take_token(s) {
            Option::None => {},
            Option::Some((t, rest)) => {
                lemma_spec_take_token_len(s);
                match t {
                    TokenView::Literal(l) => {
                        lemma_star_progress(NodeView::Atom(l), rest, term, (fuel - 1) as nat);
                    },
                    TokenView::LParen => {
                        lemma_parse_progress(rest, Option::None, (fuel - 1) as nat);
                        match spec_parse(rest, Option::None, (fuel - 1) as nat) {
                            ParseStep::Done(p, rest2) => {
                                match spec_take_token(rest2) {
                                    Option::Some((TokenView::RParen, rest3)) => {
                                        lemma_star_progress(p, rest3, term, (fuel - 1) as nat);
                                    },
                                    _ => {},
                                }
                            },
                            _ => {},
                        }
                    },
                    _ => {},
                }
            },
        }
    }
}

proof fn lemma_star_progress(node: NodeView, s: Seq<char>, term: Option<TokenView>, fuel: nat)
    ensures
        spec_parse_star(node, s, term, fuel) matches ParseStep::Done(n, r) ==> r.len() <= s.len(),
    decreases fuel,
{
    if fuel > 0 {
        match spec_take_token(s) {
            Option::Some((TokenView::Asterisk, r)) => {
                lemma_tail_progress(NodeView::Repeat(Box::new(node)), r, term, (fuel - 1) as nat);
            },
            _ => {
                lemma_tail_progress(node, s, term, (fuel - 1) as nat);
            },
        }
    }
}

proof fn lemma_tail_progress(node: NodeView, s: Seq<char>, term: Option<TokenView>, fuel: nat)
    ensures
        spec_parse_tail(node, s, term, fuel) matches ParseStep::Done(n, r) ==> r.len() <= s.len(),
    decreases fuel,
{
    if fuel > 0 {
        match spec_take_token(s) {
            Option::None => {},
            Option::Some((t, r)) => {
                if term == Option::Some(t) {
                } else if t is VerticalBar {
                    lemma_parse_progress(r, Option::None, (fuel - 1) as nat);
                    match spec_parse(r, Option::None, (fuel - 1) as nat) {
                        ParseStep::Done(right, r2) => {
                            lemma_tail_progress(
                                NodeView::Or(Box::new(node), Box::new(right)),
                                r2,
                                term,
                                (fuel - 1) as nat,
                            );
                        },
                        _ => {},
                    }
                } else if t is RParen {
                } else {
                    lemma_parse_progress(s, Option::Some(TokenView::VerticalBar), (fuel - 1) as nat);
                    match spec_parse(s, Option::Some(TokenView::VerticalBar), (fuel - 1) as nat) {
                        ParseStep::Done(right, r2) => {
                            lemma_tail_progress(
                                NodeView::Join(Box::new(node), Box::new(right)),
                                r2,
                                term,
                                (fuel - 1) as nat,
                            );
                        },
                        _ => {},
                    }
                }
            },
        }
    }
}

/// A settled outcome does not change when more fuel is granted.
proof fn lemma_parse_mono(s: Seq<char>, term: Option<TokenView>, f1: nat, f2: nat)
    requires
        f1 <= f2,
        !(spec_parse(s, term, f1) matches ParseStep::Spent),
    ensures
        spec_parse(s, term, f2) == spec_parse(s, term, f1),
    decreases f1,
{
    if f1 == f2 {
    } else {
        match spec_take_token(s) {
            Option::None => {},
            Option::Some((t, rest)) => {
                match t {
                    TokenView::Literal(l) => {
                        lemma_star_mono(
                            NodeView::Atom(l),
                            rest,
                            term,
                            (f1 - 1) as nat,
                            (f2 - 1) as nat,
                        );
                    },
                    TokenView::LParen => {
                        lemma_parse_mono(rest, Option::None, (f1 - 1) as nat, (f2 - 1) as nat);
                        match spec_parse(rest, Option::None, (f1 - 1) as nat) {
                            ParseStep::Done(p, rest2) => {
                                match spec_take_token(rest2) {
                                    Option::Some((TokenView::RParen, rest3)) => {
                                        lemma_star_mono(
                                            p,
                                            rest3,
                                            term,
                                            (f1 - 1) as nat,
                                            (f2 - 1) as nat,
                                        );
                                    },
                                    _ => {},
                                }
                            },
                            _ => {},
                        }
                    },
                    _ => {},
                }
            },
        }
    }
}

proof fn lemma_star_mono(node: NodeView, s: Seq<char>, term: Option<TokenView>, f1: nat, f2: nat)
    requires
        f1 <= f2,
        !(spec_parse_star(node, s, term, f1) matches ParseStep::Spent),
    ensures
        spec_parse_star(node, s, term, f2) == spec_parse_star(node, s, term, f1),
    decreases f1,
{
    if f1 == f2 {
    } else {
        match spec_take_token(s) {
            Option::Some((TokenView::Asterisk, r)) => {
                lemma_tail_mono(
                    NodeView::Repeat(Box::new(node)),
                    r,
                    term,
                    (f1 - 1) as nat,
                    (f2 - 1) as nat,
                );
            },
            _ => {
                lemma_tail_mono(node, s, term, (f1 - 1) as nat, (f2 - 1) as nat);
            },
        }
    }
}

proof fn lemma_tail_mono(node: NodeView, s: Seq<char>, term: Option<TokenView>, f1: nat, f2: nat)
    requires
        f1 <= f2,
        !(spec_parse_tail(node, s, term, f1) matches ParseStep::Spent),
    ensures
        spec_parse_tail(node, s, term, f2) == spec_parse_tail(node, s, term, f1),
    decreases f1,
{
    if f1 == f2 {
    } else {
        match spec_take_token(s) {
            Option::None => {},
            Option::Some((t, r)) => {
                if term == Option::Some(t) {
                } else if t is VerticalBar {
                    lemma_parse_mono(r, Option::None, (f1 - 1) as nat, (f2 - 1) as nat);
                    match spec_parse(r, Option::None, (f1 - 1) as nat) {
                        ParseStep::Done(right, r2) => {
                            lemma_tail_mono(
                                NodeView::Or(Box::new(node), Box::new(right)),
                                r2,
                                term,
                                (f1 - 1) as nat,
                                (f2 - 1) as nat,
                            );
                        },
                        _ => {},
                    }
                } else if t is RParen {
                } else {
                    lemma_parse_mono(
                        s,
                        Option::Some(TokenView::VerticalBar),
                        (f1 - 1) as nat,
                        (f2 - 1) as nat,
                    );
                    match spec_parse(s, Option::Some(TokenView::VerticalBar), (f1 - 1) as nat) {
                        ParseStep::Done(right, r2) => {
                            lemma_tail_mono(
                                NodeView::Join(Box::new(node), Box::new(right)),
                                r2,
                                term,
                                (f1 - 1) as nat,
                                (f2 - 1) as nat,
                            );
                        },
                        _ => {},
                    }
                }
            },
        }
    }
}

/// `parse_fuel` always settles the outcome: three units per character
/// at the primary level, one less at the tail, one more at the star.
proof fn lemma_parse_enough(s: Seq<char>, term: Option<TokenView>, fuel: nat)
    requires
        fuel >= 3 * s.len() + 1,
    ensures
        !(spec_parse(s, term, fuel) matches ParseStep::Spent),
    decreases s.len(), 0int,
{
    match spec_take_token(s) {
        Option::None => {},
        Option::Some((t, rest)) => {
            lemma_spec_take_token_len(s);
            match t {
                TokenView::Literal(l) => {
                    lemma_star_enough(NodeView::Atom(l), rest, term, (fuel - 1) as nat);
                },
                TokenView::LParen => {
                    lemma_parse_enough(rest, Option::None, (fuel - 1) as nat);
                    lemma_parse_progress(rest, Option::None, (fuel - 1) as nat);
                    match spec_parse(rest, Option::None, (fuel - 1) as nat) {
                        ParseStep::Done(p, rest2) => {
                            lemma_spec_take_token_len(rest2);
                            match spec_take_token(rest2) {
                                Option::Some((TokenView::RParen, rest3)) => {
                                    lemma_star_enough(p, rest3, term, (fuel - 1) as nat);
                                },
                                _ => {},
                            }
                        },
                        _ => {},
                    }
                },
                _ => {},
            }
        },
    }
}

proof fn lemma_star_enough(node: NodeView, s: Seq<char>, term: Option<TokenView>, fuel: nat)
    requires
        fuel >= 3 * s.len() + 3,
    ensures
        !(spec_parse_star(node, s, term, fuel) matches ParseStep::Spent),
    decreases s.len(), 2int,
{
    match spec_take_token(s) {
        Option::Some((TokenView::Asterisk, r)) => {
            lemma_tail_enough(NodeView::Repeat(Box::new(node)), r, term, (fuel - 1) as nat);
        },
        _ => {
            lemma_tail_enough(node, s, term, (fuel - 1) as nat);
        },
    }
}

proof fn lemma_tail_enough(node: NodeView, s: Seq<char>, term: Option<TokenView>, fuel: nat)
    requires
        fuel >= 3 * s.len() + 2,
    ensures
        !(spec_parse_tail(node, s, term, fuel) matches ParseStep::Spent),
    decreases s.len(), 1int,
{
    match spec_take_token(s) {
        Option::None => {},
        Option::Some((t, r)) => {
            lemma_spec_take_token_len(s);
            if term == Option::Some(t) {
            } else if t is VerticalBar {
                lemma_parse_enough(r, Option::None, (fuel - 1) as nat);
                lemma_parse_progress(r, Option::None, (fuel - 1) as nat);
                match spec_parse(r, Option::None, (fuel - 1) as nat) {
                    ParseStep::Done(right, r2) => {
                        lemma_tail_enough(
                            NodeView::Or(Box::new(node), Box::new(right)),
                            r2,
                            term,
                            (fuel - 1) as nat,
                        );
                    },
                    _ => {},
                }
            } else if t is RParen {
            } else {
                lemma_parse_enough(s, Option::Some(TokenView::VerticalBar), (fuel - 1) as nat);
                lemma_parse_progress(s, Option::Some(TokenView::VerticalBar), (fuel - 1) as nat);
                match spec_parse(s, Option::Some(TokenView::VerticalBar), (fuel - 1) as nat) {
                    ParseStep::Done(right, r2) => {
                        lemma_tail_enough(
                            NodeView::Join(Box::new(node), Box::new(right)),
                            r2,
                            term,
                            (fuel - 1) as nat,
                        );
                    },
                    _ => {},
                }
            }
        },
    }
}

/// Parses one expression from `s`, stopping (without consuming) at the
/// caller-supplied stop token, at an unconsumed `)`, or at end of input.
/// Grammar, tightest first: grouping, postfix `*`, concatenation,
/// alternation. The result is exactly what the specification parser
/// yields; on success the remainder is strictly shorter than the input.
pub fn parse<'a>(s: &'a str, terminal: Option<&Token>) -> (r: Result<(RegexNode, &'a str), Error>)
    ensures
        r matches Ok(p) ==> p.1@.len() < s@.len(),
        s@.len() == 0 ==> r == Err::<(RegexNode, &'a str), Error>(Error::Empty),
        s@.len() > 0 && (s@[0] == ')' || s@[0] == '*' || s@[0] == '|') ==> r == Err::<
            (RegexNode, &'a str),
            Error,
        >(Error::UnexpectedToken),
        (s@.len() > 0 && (forall|k: int| 0 <= k < s@.len() ==> !is_special(s@[k]))) ==> (
        r matches Ok(p) && p.0 matches RegexNode::Atom(a) && a.literal@ == s@ && p.1@.len() == 0),
        spec_parse(s@, term_view(terminal), parse_fuel(s@)) == (match r {
            Ok(p) => ParseStep::Done(node_view(p.0), p.1@),
            Err(e) => ParseStep::Failed(e),
        }),
    decreases s@.len(),
{
    let ghost fv = parse_fuel(s@);
    let ghost tv = term_view(terminal);
    let (token, rest0) = match take_token(s) {
        Some(e) => e,
        None => {
            proof {
                assert(spec_parse(s@, tv, fv) == ParseStep::Failed(Error::Empty));
            }
            return Err(Error::Empty);
        },
    };
    proof {
        if s@.len() > 0 && (forall|k: int| 0 <= k < s@.len() ==> !is_special(s@[k])) {
            assert(!is_special(s@[0]));
        }
    }

    let (mut node, mut rest): (RegexNode, &'a str) = match token {
        Token::Literal(literal) => (RegexNode::Atom(RegexAtom { literal }), rest0),
        Token::LParen => {
            proof {
                lemma_parse_enough(rest0@, Option::None, parse_fuel(rest0@));
                lemma_parse_mono(rest0@, Option::None, parse_fuel(rest0@), (fv - 1) as nat);
            }
            match parse(rest0, None) {
                Ok((p, rest1)) => match take_token(rest1) {
                    Some((Token::RParen, rest2)) => (p, rest2),
                    Some(_) => {
                        proof {
                            assert(spec_parse(s@, tv, fv) == ParseStep::Failed(
                                Error::UnexpectedToken,
                            ));
                        }
                        return Err(Error::UnexpectedToken);
                    },
                    None => {
                        proof {
                            assert(spec_parse(s@, tv, fv) == ParseStep::Failed(
                                Error::UnexpectedEnd,
                            ));
                        }
                        return Err(Error::UnexpectedEnd);
                    },
                },
                Err(e) => {
                    proof {
                        assert(spec_parse(s@, tv, fv) == ParseStep::Failed(e));
                    }
                    return Err(e);
                },
            }
        },
        _ => {
            proof {
                assert(spec_parse(s@, tv, fv) == ParseStep::Failed(Error::UnexpectedToken));
            }
            return Err(Error::UnexpectedToken);
        },
    };
    let ghost prim_node = node_view(node);
    let ghost prim_rest = rest@;
    proof {
        assert(spec_parse(s@, tv, fv) == spec_parse_star(prim_node, prim_rest, tv, (fv - 1) as nat));
    }

    match take_token(rest) {
        Some((Token::Asterisk, r0)) => {
            node = RegexNode::Repeat(Box::new(RegexRepeat { pattern: node }));
            rest = r0;
        },
        _ => {},
    }
    proof {
        assert(spec_parse_star(prim_node, prim_rest, tv, (fv - 1) as nat) == spec_parse_tail(
            node_view(node),
            rest@,
            tv,
            (fv - 2) as nat,
        ));
        lemma_tail_enough(node_view(node), rest@, tv, (3 * rest@.len() + 2) as nat);
        lemma_tail_mono(node_view(node), rest@, tv, (3 * rest@.len() + 2) as nat, (fv - 2) as nat);
    }

    let ghost node_pre = node;
    let ghost rest_pre = rest@;
    proof {
        if s@.len() > 0 && (forall|k: int| 0 <= k < s@.len() ==> !is_special(s@[k])) {
            lemma_lit_len_at(s@, s@.len() as int);
            assert(s@.subrange(0, s@.len() as int) =~= s@);
            assert(s@.subrange(s@.len() as int, s@.len() as int) =~= Seq::<char>::empty());
            assert(rest_pre.len() == 0);
            assert(node_pre matches RegexNode::Atom(a) && a.literal@ == s@);
        }
    }
    loop
        invariant
            rest@.len() < s@.len(),
            s@[0] != ')' && s@[0] != '*' && s@[0] != '|',
            rest_pre.len() == 0 ==> (node == node_pre && rest@ == rest_pre),
            (s@.len() > 0 && (forall|k: int| 0 <= k < s@.len() ==> !is_special(s@[k])))
                ==> rest_pre.len() == 0,
            tv == term_view(terminal),
            spec_parse_tail(node_view(node), rest@, tv, (3 * rest@.len() + 2) as nat)
                == spec_parse(s@, tv, parse_fuel(s@)),
        ensures
            rest@.len() < s@.len(),
            rest_pre.len() == 0 ==> (node == node_pre && rest@ == rest_pre),
            spec_parse(s@, tv, parse_fuel(s@)) == ParseStep::Done(node_view(node), rest@),
        decreases rest@.len(),
    {
        let ghost gcur = (3 * rest@.len() + 2) as nat;
        let (token, r0) = match take_token(rest) {
            Some(v) => v,
            None => {
                break;
            },
        };

        let at_stop = match terminal {
            Some(term) => token_eq(&token, term),
            None => false,
        };
        proof {
            match terminal {
                Option::Some(term) => {
                    lemma_same_token_view(token, *term);
                },
                Option::None => {},
            }
        }
        if at_stop {
            break;
        }

        match token {
            Token::VerticalBar => {
                proof {
                    lemma_parse_enough(r0@, Option::None, parse_fuel(r0@));
                    lemma_parse_mono(r0@, Option::None, parse_fuel(r0@), (gcur - 1) as nat);
                }
                match parse(r0, None) {
                    Ok((right, r1)) => {
                        node = RegexNode::Or(Box::new(RegexOr { left: node, right }));
                        rest = r1;
                        proof {
                            lemma_tail_enough(
                                node_view(node),
                                rest@,
                                tv,
                                (3 * rest@.len() + 2) as nat,
                            );
                            lemma_tail_mono(
                                node_view(node),
                                rest@,
                                tv,
                                (3 * rest@.len() + 2) as nat,
                                (gcur - 1) as nat,
                            );
                        }
                    },
                    Err(Error::Empty) => {
                        return Err(Error::UnexpectedEnd);
                    },
                    Err(e) => {
                        return Err(e);
                    },
                }
            },
            Token::RParen => {
                break;
            },
            _ => {
                let bar = Token::VerticalBar;
                match parse(rest, Some(&bar)) {
                    Ok((right, r1)) => {
                        node = RegexNode::Join(Box::new(RegexJoin { left: node, right }));
                        rest = r1;
                        proof {
                            lemma_tail_enough(
                                node_view(node),
                                rest@,
                                tv,
                                (3 * rest@.len() + 2) as nat,
                            );
                            lemma_tail_mono(
                                node_view(node),
                                rest@,
                                tv,
                                (3 * rest@.len() + 2) as nat,
                                (gcur - 1) as nat,
                            );
                        }
                    },
                    Err(e) => {
                        return Err(e);
                    },
                }
            },
        }
    }

    Ok((node, rest))
}

/// The whole-pattern outcome: the specification parse with no stop
/// token, where a nonempty remainder — a closing delimiter no group
/// opened — is rejected rather than silently dropped. (`Spent` never
/// arises at `parse_fuel`; its arm is arbitrary.)
pub open spec fn spec_pattern(s: Seq<char>) -> Result<NodeView, Error> {
    match spec_parse(s, Option::None, parse_fuel(s)) {
        ParseStep::Spent => Err(Error::Empty),
        ParseStep::Failed(e) => Err(e),
        ParseStep::Done(n, rest) => if rest.len() == 0 {
            Ok(n)
        } else {
            Err(Error::UnexpectedToken)
        },
    }
}

impl Regex {
    /// Parses a whole pattern. A remainder after the top-level parse can
    /// only start with a closing delimiter that no group opened, or a
    /// stray stop token, so it is rejected, never silently dropped.
    pub fn from_pattern(s: &str) -> (r: Result<Regex, Error>)
        ensures
            match r {
                Ok(re) => spec_pattern(s@) == Ok::<NodeView, Error>(node_view(re.root)),
                Err(e) => spec_pattern(s@) == Err::<NodeView, Error>(e),
            },
            s@.len() == 0 ==> r == Err::<Regex, Error>(Error::Empty),
            s@.len() > 0 && (s@[0] == ')' || s@[0] == '*' || s@[0] == '|') ==> r == Err::<
                Regex,
                Error,
            >(Error::UnexpectedToken),
            (s@.len() > 0 && (forall|k: int| 0 <= k < s@.len() ==> !is_special(s@[k]))) ==> (
            r matches Ok(re) && re.root matches RegexNode::Atom(a) && a.literal@ == s@),
    {
        match parse(s, None) {
            Ok((root, rest)) => {
                if rest.unicode_len() > 0 {
                    Err(Error::UnexpectedToken)
                } else {
                    Ok(Regex { root })
                }
            },
            Err(e) => Err(e),
        }
    }
}

impl Error {
    /// The diagnostic text of each error, as a character sequence.
    pub open spec fn spec_message(self) -> Seq<char> {
        match self {
            Error::Empty => "input is empty."@,
            Error::UnexpectedEnd => "unexpected end of input."@,
            Error::UnexpectedToken => "unexpected token."@,
        }
    }

    /// The diagnostic text of this error.
    pub fn message(&self) -> (r: String)
        ensures
            r@ == self.spec_message(),
    {
        match self {
            Error::Empty => "input is empty.".to_owned(),
            Error::UnexpectedEnd => "unexpected end of input.".to_owned(),
            Error::UnexpectedToken => "unexpected token.".to_owned(),
        }
    }
}

impl std::str::FromStr for Regex {
    type Err = Error;

    fn from_str(s: &str) -> Result<Self, Self::Err> {
        Regex::from_pattern(s)
    }
}

} // verus!
