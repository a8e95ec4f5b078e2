//! The lexer of the grammar toolchain's own front end.
//!
//! The rules are anchored regular expressions tried in order; the longest
//! match wins, ties go to the earlier rule.  Each rule fires an action that
//! yields the token kind and may switch the lexer between its two states
//! (ordinary input and string-literal input).  The regular-expression
//! engine is an outside collaborator; its search result is a function of
//! the pattern and the haystack alone, so it is given a name (`find_of`)
//! that the rule-selection contract speaks of.  Everything else -
//! longest-match selection, position bookkeeping, line and column
//! counting, action dispatch - is verified.

use vstd::prelude::*;
use vstd::slice::slice_to_vec;
use vstd::string::StringSliceAdditionalSpecFns;

verus! {

/// What the regular-expression engine finds: the span (relative offsets)
/// of the leftmost match of `pat` in `hay`, if `pat` compiles and
/// matches.  The result depends on the pattern and the haystack alone.
pub uninterp spec fn find_of(pat: Seq<char>, hay: Seq<u8>) -> Option<(nat, nat)>;

/// Whether the regular-expression engine accepts the pattern.
pub uninterp spec fn re_compiles(pat: Seq<char>) -> bool;

/// Relies on regex::bytes::Regex::new: compiles a pattern, or rejects
/// it; acceptance depends on the pattern alone.
#[verifier::external_body]
fn re_check(pat: &str) -> (ok: bool)
    ensures
        ok == re_compiles(pat@),
{
    regex::bytes::Regex::new(pat).is_ok()
}

/// Relies on regex::bytes::Regex::new and regex::bytes::Regex::find: the
/// search result is a function of the pattern and the haystack (here the
/// tail of `hay` from `from`) alone, and a returned match is a span
/// within that haystack with its start not after its end.
#[verifier::external_body]
fn re_match(pat: &str, hay: &Vec<u8>, from: usize) -> (r: Option<(usize, usize)>)
    requires
        from <= hay@.len(),
    ensures
        (match r {
            Some(ab) => find_of(pat@, hay@.skip(from as int)) == Some(
                (ab.0 as nat, ab.1 as nat),
            ) && ab.0 <= ab.1 && ab.1 <= hay@.len() - from,
            None => find_of(pat@, hay@.skip(from as int)) is None,
        }),
{
    match regex::bytes::Regex::new(pat) {
        Ok(re) => re.find(&hay[from..]).map(|m| (m.start(), m.end())),
        Err(_) => None,
    }
}

#[derive(Debug, Clone, Copy, PartialEq, Eq, Structural)]
pub enum TokenType {
    _Eps,
    _Eof,
    Or,
    And,
    BOr,
    BXor,
    BAnd,
    Eq,
    Ne,
    Le,
    Ge,
    Lt,
    Gt,
    Repeat,
    Shl,
    Shr,
    Add,
    Sub,
    Mul,
    Div,
    Mod,
    UMinus,
    Not,
    Inc,
    Dec,
    LBracket,
    Dot,
    Default,
    RParenthesis,
    Empty,
    Else,
    Void,
    Int,
    Bool,
    String,
    New,
    Null,
    True,
    False,
    Class,
    Extends,
    This,
    While,
    Foreach,
    For,
    If,
    Return,
    Break,
    Print,
    ReadInteger,
    ReadLine,
    Static,
    InstanceOf,
    SCopy,
    Sealed,
    Var,
    In,
    GuardSplit,
    Comma,
    Semicolon,
    LParenthesis,
    RBracket,
    LBrace,
    RBrace,
    Colon,
    Identifier,
}

#[derive(Debug, Clone, Copy, PartialEq, Eq, Structural)]
pub enum LexerState {
    _Initial,
    S,
}

/// A recognized token: its kind, the matched bytes, and the line and
/// column (both counted in bytes, lines from 1, columns from 0) where the
/// match began.
#[derive(Debug, Clone)]
pub struct Token {
    pub ty: TokenType,
    pub piece: Vec<u8>,
    pub line: u32,
    pub col: u32,
}

/// Line number after reading `s`, starting from line `l`: one more per
/// newline byte.
pub open spec fn line_after(s: Seq<u8>, l: int) -> int
    decreases s.len(),
{
    if s.len() == 0 {
        l
    } else {
        line_after(s.drop_last(), l) + if s.last() == 10u8 {
            1int
        } else {
            0int
        }
    }
}

/// Column after reading `s`, starting from column `c`: bytes since the
/// last newline.
pub open spec fn col_after(s: Seq<u8>, c: int) -> int
    decreases s.len(),
{
    if s.len() == 0 {
        c
    } else if s.last() == 10u8 {
        0
    } else {
        col_after(s.drop_last(), c) + 1
    }
}

/// The best anchored match over `rules[j..]`, folded left with the
/// running best `acc` as a pair of match length and action index: a rule
/// wins when its match starts at the head and is strictly longer than the
/// best so far, so ties go to the earliest rule.
pub open spec fn scan_rules(
    rules: Seq<(String, u32)>,
    input: Seq<u8>,
    pos: int,
    j: int,
    acc: Option<(int, int)>,
) -> Option<(int, int)>
    decreases rules.len() - j,
{
    if j < 0 || j >= rules.len() {
        acc
    } else {
        let acc2 = match find_of(rules[j].0@, input.skip(pos)) {
            Some(ab) => if ab.0 == 0 && (match acc {
                Some(p) => ab.1 > p.0,
                None => true,
            }) {
                Some((ab.1 as int, rules[j].1 as int))
            } else {
                acc
            },
            None => acc,
        };
        scan_rules(rules, input, pos, j + 1, acc2)
    }
}

/// The winning rule of the table at `pos`: its match length and action.
pub open spec fn chosen_match(rules: Seq<(String, u32)>, input: Seq<u8>, pos: int) -> Option<
    (int, int),
> {
    scan_rules(rules, input, pos, 0, None)
}

/// No rule of the table can move the cursor at `pos`: nothing matches at
/// the head, or only a zero-width match does.
pub open spec fn no_usable_match(rules: Seq<(String, u32)>, input: Seq<u8>, pos: int) -> bool {
    match chosen_match(rules, input, pos) {
        Some(p) => p.0 == 0,
        None => true,
    }
}

pub struct Lexer {
    pub input: Vec<u8>,
    pub pos: usize,
    pub states: Vec<LexerState>,
    pub cur_line: u32,
    pub cur_col: u32,
    pub piece: Vec<u8>,
    pub string_builder: (Vec<u8>, u32, u32),
    pub errors: Vec<String>,
    pub rules0: Vec<(String, u32)>,
    pub rules1: Vec<(String, u32)>,
}

/// The rule table of the lexer's current (top) state.
pub open spec fn lexer_rules_of(lx: &Lexer) -> Seq<(String, u32)> {
    match lx.states@.last() {
        LexerState::_Initial => lx.rules0@,
        LexerState::S => lx.rules1@,
    }
}

/// Everything an action may not touch: the input, the cursor, and the
/// rule tables.
pub open spec fn act_frame(a: Lexer, b: Lexer) -> bool {
    &&& b.input@ == a.input@
    &&& b.pos == a.pos
    &&& b.cur_line == a.cur_line
    &&& b.cur_col == a.cur_col
    &&& b.piece@ == a.piece@
    &&& b.rules0@ == a.rules0@
    &&& b.rules1@ == a.rules1@
    &&& b.errors@ == a.errors@
}

/// The token kind that action `act` yields.
pub open spec fn act_ty(act: int) -> TokenType {
    if act == 0 {
        TokenType::Void
    } else if act == 1 {
        TokenType::Int
    } else if act == 2 {
        TokenType::Bool
    } else if act == 3 {
        TokenType::String
    } else if act == 4 {
        TokenType::New
    } else if act == 5 {
        TokenType::Null
    } else if act == 6 {
        TokenType::True
    } else if act == 7 {
        TokenType::False
    } else if act == 8 {
        TokenType::Class
    } else if act == 9 {
        TokenType::Extends
    } else if act == 10 {
        TokenType::This
    } else if act == 11 {
        TokenType::While
    } else if act == 12 {
        TokenType::Foreach
    } else if act == 13 {
        TokenType::For
    } else if act == 14 {
        TokenType::If
    } else if act == 15 {
        TokenType::Else
    } else if act == 16 {
        TokenType::Return
    } else if act == 17 {
        TokenType::Break
    } else if act == 18 {
        TokenType::Print
    } else if act == 19 {
        TokenType::ReadInteger
    } else if act == 20 {
        TokenType::ReadLine
    } else if act == 21 {
        TokenType::Static
    } else if act == 22 {
        TokenType::InstanceOf
    } else if act == 23 {
        TokenType::SCopy
    } else if act == 24 {
        TokenType::Sealed
    } else if act == 25 {
        TokenType::Var
    } else if act == 26 {
        TokenType::Default
    } else if act == 27 {
        TokenType::In
    } else if act == 28 {
        TokenType::GuardSplit
    } else if act == 29 {
        TokenType::Le
    } else if act == 30 {
        TokenType::Ge
    } else if act == 31 {
        TokenType::Eq
    } else if act == 32 {
        TokenType::Ne
    } else if act == 33 {
        TokenType::And
    } else if act == 34 {
        TokenType::Or
    } else if act == 35 {
        TokenType::Repeat
    } else if act == 36 {
        TokenType::Inc
    } else if act == 37 {
        TokenType::Dec
    } else if act == 38 {
        TokenType::Shl
    } else if act == 39 {
        TokenType::Shr
    } else if act == 40 {
        TokenType::Add
    } else if act == 41 {
        TokenType::Sub
    } else if act == 42 {
        TokenType::Mul
    } else if act == 43 {
        TokenType::Div
    } else if act == 44 {
        TokenType::Mod
    } else if act == 45 {
        TokenType::BAnd
    } else if act == 46 {
        TokenType::BOr
    } else if act == 47 {
        TokenType::BXor
    } else if act == 48 {
        TokenType::Eq
    } else if act == 49 {
        TokenType::Lt
    } else if act == 50 {
        TokenType::Gt
    } else if act == 51 {
        TokenType::Dot
    } else if act == 52 {
        TokenType::Comma
    } else if act == 53 {
        TokenType::Semicolon
    } else if act == 54 {
        TokenType::Not
    } else if act == 55 {
        TokenType::LParenthesis
    } else if act == 56 {
        TokenType::RParenthesis
    } else if act == 57 {
        TokenType::LBracket
    } else if act == 58 {
        TokenType::RBracket
    } else if act == 59 {
        TokenType::LBrace
    } else if act == 60 {
        TokenType::RBrace
    } else if act == 61 {
        TokenType::Colon
    } else if act == 62 {
        TokenType::_Eps
    } else if act == 63 {
        TokenType::Int
    } else if act == 64 {
        TokenType::Identifier
    } else if act == 65 {
        TokenType::_Eps
    } else if act == 66 {
        TokenType::_Eps
    } else if act == 67 {
        TokenType::_Eps
    } else if act == 68 {
        TokenType::_Eps
    } else if act == 69 {
        TokenType::_Eps
    } else if act == 70 {
        TokenType::String
    } else if act == 71 {
        TokenType::_Eps
    } else if act == 72 {
        TokenType::_Eps
    } else if act == 73 {
        TokenType::_Eps
    } else if act == 74 {
        TokenType::_Eps
    } else if act == 75 {
        TokenType::_Eps
    } else {
        TokenType::_Eps
    }
}

/// The byte that a string-literal escape action appends.
pub open spec fn act_push_byte(act: int) -> u8 {
    if act == 71 {
        10u8
    } else if act == 72 {
        9u8
    } else if act == 73 {
        34u8
    } else {
        92u8
    }
}

/// The lexer after storing the matched `piece` and running action `act`
/// on configuration `a`: the cursor and rule tables are untouched, the
/// kind yielded is the action's, and the state stack and string builder
/// change exactly as the action dictates.
pub open spec fn act_effect(a: Lexer, piece: Seq<u8>, b: Lexer, act: int, ty: TokenType) -> bool {
    &&& b.input@ == a.input@
    &&& b.pos == a.pos
    &&& b.cur_line == a.cur_line
    &&& b.cur_col == a.cur_col
    &&& b.rules0@ == a.rules0@
    &&& b.rules1@ == a.rules1@
    &&& b.errors@ == a.errors@
    &&& b.piece@ == piece
    &&& ty == act_ty(act)
    &&& if act == 65 {
        &&& b.states@ == a.states@.push(LexerState::S)
        &&& b.string_builder.0@ == Seq::<u8>::empty()
        &&& b.string_builder.1 == a.cur_line
        &&& b.string_builder.2 == a.cur_col + 1
    } else if act == 70 {
        &&& b.string_builder == a.string_builder
        &&& (a.states@.len() > 0 ==> b.states@ == a.states@.drop_last())
        &&& (a.states@.len() == 0 ==> b.states@ == a.states@)
    } else if 71 <= act <= 74 {
        &&& b.states@ == a.states@
        &&& b.string_builder.0@ == a.string_builder.0@.push(act_push_byte(act))
        &&& b.string_builder.1 == a.string_builder.1
        &&& b.string_builder.2 == a.string_builder.2
    } else if act == 75 {
        &&& b.states@ == a.states@
        &&& b.string_builder.0@ == a.string_builder.0@ + piece
        &&& b.string_builder.1 == a.string_builder.1
        &&& b.string_builder.2 == a.string_builder.2
    } else {
        &&& b.states@ == a.states@
        &&& b.string_builder == a.string_builder
    }
}

/// One lexing step from configuration `a` to `b`: the winning rule of
/// `a`'s current state table (longest anchored match, earliest rule on
/// ties) consumes a non-empty piece at the cursor, its action runs on the
/// stored piece and yields `ty`, and the cursor advances over the piece
/// with the line and column recounted.
pub open spec fn lex_step(a: Lexer, b: Lexer, ty: TokenType) -> bool {
    &&& a.pos < a.input@.len()
    &&& a.states@.len() > 0
    &&& chosen_match(lexer_rules_of(&a), a.input@, a.pos as int) is Some
    &&& {
        let la = chosen_match(lexer_rules_of(&a), a.input@, a.pos as int)->Some_0;
        &&& la.0 > 0
        &&& a.pos + la.0 <= a.input@.len()
        &&& exists|mid: Lexer|
            #[trigger] act_effect(
                a,
                a.input@.subrange(a.pos as int, a.pos + la.0),
                mid,
                la.1,
                ty,
            ) && b == Lexer {
                pos: (a.pos + la.0) as usize,
                cur_line: line_after(a.input@.subrange(0, a.pos + la.0), 1) as u32,
                cur_col: col_after(a.input@.subrange(0, a.pos + la.0), 0) as u32,
                ..mid
            }
    }
}

/// `b` follows from `a` by `n` lexing steps that all yield the empty
/// token kind (skipped whitespace, comments, string-literal innards).
pub open spec fn eps_steps_n(a: Lexer, b: Lexer, n: nat) -> bool
    decreases n,
{
    if n == 0 {
        b == a
    } else {
        exists|mid: Lexer| #[trigger] lex_step(a, mid, TokenType::_Eps) && eps_steps_n(
            mid,
            b,
            (n - 1) as nat,
        )
    }
}

/// A chain of empty-yield steps extends by one more step at its end.
pub proof fn lemma_eps_steps_snoc(a: Lexer, m: Lexer, b: Lexer, n: nat)
    requires
        eps_steps_n(a, m, n),
        lex_step(m, b, TokenType::_Eps),
    ensures
        eps_steps_n(a, b, (n + 1) as nat),
    decreases n,
{
    if n == 0 {
        assert(m == a);
        assert(eps_steps_n(b, b, 0));
    } else {
        let mid = choose|mid: Lexer|
            #[trigger] lex_step(a, mid, TokenType::_Eps) && eps_steps_n(mid, m, (n - 1) as nat);
        lemma_eps_steps_snoc(mid, m, b, (n - 1) as nat);
        assert(eps_steps_n(mid, b, n));
    }
}

/// All the rule patterns of the lexer are accepted by the
/// regular-expression engine.
pub open spec fn all_rules_compile() -> bool {
    &&& re_compiles("^void"@)
    &&& re_compiles("^int"@)
    &&& re_compiles("^bool"@)
    &&& re_compiles("^string"@)
    &&& re_compiles("^new"@)
    &&& re_compiles("^null"@)
    &&& re_compiles("^true"@)
    &&& re_compiles("^false"@)
    &&& re_compiles("^class"@)
    &&& re_compiles("^extends"@)
    &&& re_compiles("^this"@)
    &&& re_compiles("^while"@)
    &&& re_compiles("^foreach"@)
    &&& re_compiles("^for"@)
    &&& re_compiles("^if"@)
    &&& re_compiles("^else"@)
    &&& re_compiles("^return"@)
    &&& re_compiles("^break"@)
    &&& re_compiles("^Print"@)
    &&& re_compiles("^ReadInteger"@)
    &&& re_compiles("^ReadLine"@)
    &&& re_compiles("^static"@)
    &&& re_compiles("^instanceof"@)
    &&& re_compiles("^scopy"@)
    &&& re_compiles("^sealed"@)
    &&& re_compiles("^var"@)
    &&& re_compiles("^default"@)
    &&& re_compiles("^in"@)
    &&& re_compiles("^\\|\\|\\|"@)
    &&& re_compiles("^<="@)
    &&& re_compiles("^>="@)
    &&& re_compiles("^=="@)
    &&& re_compiles("^!="@)
    &&& re_compiles("^\\&\\&"@)
    &&& re_compiles("^\\|\\|"@)
    &&& re_compiles("^%%"@)
    &&& re_compiles("^\\+\\+"@)
    &&& re_compiles("^\\-\\-"@)
    &&& re_compiles("^<<"@)
    &&& re_compiles("^>>"@)
    &&& re_compiles("^\\+"@)
    &&& re_compiles("^\\-"@)
    &&& re_compiles("^\\*"@)
    &&& re_compiles("^/"@)
    &&& re_compiles("^%"@)
    &&& re_compiles("^\\&"@)
    &&& re_compiles("^\\|"@)
    &&& re_compiles("^\\^"@)
    &&& re_compiles("^="@)
    &&& re_compiles("^<"@)
    &&& re_compiles("^>"@)
    &&& re_compiles("^\\."@)
    &&& re_compiles("^,"@)
    &&& re_compiles("^;"@)
    &&& re_compiles("^!"@)
    &&& re_compiles("^\\("@)
    &&& re_compiles("^\\)"@)
    &&& re_compiles("^\\["@)
    &&& re_compiles("^\\]"@)
    &&& re_compiles("^\\{"@)
    &&& re_compiles("^\\}"@)
    &&& re_compiles("^:"@)
    &&& re_compiles("^\\s+"@)
    &&& re_compiles("^\\d+"@)
    &&& re_compiles("^[A-Za-z][_0-9A-Za-z]*"@)
    &&& re_compiles("^\""@)
    &&& re_compiles("^//[^\\n]*"@)
    &&& re_compiles("^\\n"@)
    &&& re_compiles("^\\\\r"@)
    &&& re_compiles("^$"@)
    &&& re_compiles("^\""@)
    &&& re_compiles("^\\\\n"@)
    &&& re_compiles("^\\\\t"@)
    &&& re_compiles("^\\\\\""@)
    &&& re_compiles("^\\\\"@)
    &&& re_compiles("^."@)
}

impl Lexer {
    /// Cursor and bookkeeping invariant: the position is inside the input,
    /// the line and column are exactly what the consumed prefix dictates,
    /// and every rule points at a real action.
    pub open spec fn inv(&self) -> bool {
        &&& self.pos <= self.input@.len()
        &&& self.input@.len() < 0x4000_0000
        &&& self.cur_line == line_after(self.input@.subrange(0, self.pos as int), 1)
        &&& self.cur_col == col_after(self.input@.subrange(0, self.pos as int), 0)
        &&& forall|j: int| 0 <= j < self.rules0@.len() ==> (#[trigger] self.rules0@[j]).1 < 76
        &&& forall|j: int| 0 <= j < self.rules1@.len() ==> (#[trigger] self.rules1@[j]).1 < 76
    }

    /// A fresh lexer over `string`, in the initial state, at line 1 and
    /// column 0, with empty piece, string builder and error list.  It
    /// exists exactly when the input fits the size bound and every rule
    /// pattern is accepted by the regular-expression engine.
    pub fn new(string: &str) -> (r: Option<Lexer>)
        ensures
            (r is Some) == (string.spec_bytes().len() < 0x4000_0000 && all_rules_compile()),
            (match r {
                Some(lx) => {
                    &&& lx.inv()
                    &&& lx.pos == 0
                    &&& lx.cur_line == 1
                    &&& lx.cur_col == 0
                    &&& lx.states@.len() == 1
                    &&& lx.states@[0] == LexerState::_Initial
                    &&& lx.input@ == string.spec_bytes()
                    &&& lx.piece@ == Seq::<u8>::empty()
                    &&& lx.string_builder.0@ == Seq::<u8>::empty()
                    &&& lx.string_builder.1 == 0
                    &&& lx.string_builder.2 == 0
                    &&& lx.errors@ == Seq::<String>::empty()
                },
                None => true,
            }),
    {
        let bytes = string.as_bytes();
        if bytes.len() >= 0x4000_0000 {
            return None;
        }
        let input = slice_to_vec(bytes);
        let mut rules0: Vec<(String, u32)> = Vec::new();
        if !add_rule(&mut rules0, "^void", 0) {
            return None;
        }
        if !add_rule(&mut rules0, "^int", 1) {
            return None;
        }
        if !add_rule(&mut rules0, "^bool", 2) {
            return None;
        }
        if !add_rule(&mut rules0, "^string", 3) {
            return None;
        }
        if !add_rule(&mut rules0, "^new", 4) {
            return None;
        }
        if !add_rule(&mut rules0, "^null", 5) {
            return None;
        }
        if !add_rule(&mut rules0, "^true", 6) {
            return None;
        }
        if !add_rule(&mut rules0, "^false", 7) {
            return None;
        }
        if !add_rule(&mut rules0, "^class", 8) {
            return None;
        }
        if !add_rule(&mut rules0, "^extends", 9) {
            return None;
        }
        if !add_rule(&mut rules0, "^this", 10) {
            return None;
        }
        if !add_rule(&mut rules0, "^while", 11) {
            return None;
        }
        if !add_rule(&mut rules0, "^foreach", 12) {
            return None;
        }
        if !add_rule(&mut rules0, "^for", 13) {
            return None;
        }
        if !add_rule(&mut rules0, "^if", 14) {
            return None;
        }
        if !add_rule(&mut rules0, "^else", 15) {
            return None;
        }
        if !add_rule(&mut rules0, "^return", 16) {
            return None;
        }
        if !add_rule(&mut rules0, "^break", 17) {
            return None;
        }
        if !add_rule(&mut rules0, "^Print", 18) {
            return None;
        }
        if !add_rule(&mut rules0, "^ReadInteger", 19) {
            return None;
        }
        if !add_rule(&mut rules0, "^ReadLine", 20) {
            return None;
        }
        if !add_rule(&mut rules0, "^static", 21) {
            return None;
        }
        if !add_rule(&mut rules0, "^instanceof", 22) {
            return None;
        }
        if !add_rule(&mut rules0, "^scopy", 23) {
            return None;
        }
        if !add_rule(&mut rules0, "^sealed", 24) {
            return None;
        }
        if !add_rule(&mut rules0, "^var", 25) {
            return None;
        }
        if !add_rule(&mut rules0, "^default", 26) {
            return None;
        }
        if !add_rule(&mut rules0, "^in", 27) {
            return None;
        }
        if !add_rule(&mut rules0, "^\\|\\|\\|", 28) {
            return None;
        }
        if !add_rule(&mut rules0, "^<=", 29) {
            return None;
        }
        if !add_rule(&mut rules0, "^>=", 30) {
            return None;
        }
        if !add_rule(&mut rules0, "^==", 31) {
            return None;
        }
        if !add_rule(&mut rules0, "^!=", 32) {
            return None;
        }
        if !add_rule(&mut rules0, "^\\&\\&", 33) {
            return None;
        }
        if !add_rule(&mut rules0, "^\\|\\|", 34) {
            return None;
        }
        if !add_rule(&mut rules0, "^%%", 35) {
            return None;
        }
        if !add_rule(&mut rules0, "^\\+\\+", 36) {
            return None;
        }
        if !add_rule(&mut rules0, "^\\-\\-", 37) {
            return None;
        }
        if !add_rule(&mut rules0, "^<<", 38) {
            return None;
        }
        if !add_rule(&mut rules0, "^>>", 39) {
            return None;
        }
        if !add_rule(&mut rules0, "^\\+", 40) {
            return None;
        }
        if !add_rule(&mut rules0, "^\\-", 41) {
            return None;
        }
        if !add_rule(&mut rules0, "^\\*", 42) {
            return None;
        }
        if !add_rule(&mut rules0, "^/", 43) {
            return None;
        }
        if !add_rule(&mut rules0, "^%", 44) {
            return None;
        }
        if !add_rule(&mut rules0, "^\\&", 45) {
            return None;
        }
        if !add_rule(&mut rules0, "^\\|", 46) {
            return None;
        }
        if !add_rule(&mut rules0, "^\\^", 47) {
            return None;
        }
        if !add_rule(&mut rules0, "^=", 48) {
            return None;
        }
        if !add_rule(&mut rules0, "^<", 49) {
            return None;
        }
        if !add_rule(&mut rules0, "^>", 50) {
            return None;
        }
        if !add_rule(&mut rules0, "^\\.", 51) {
            return None;
        }
        if !add_rule(&mut rules0, "^,", 52) {
            return None;
        }
        if !add_rule(&mut rules0, "^;", 53) {
            return None;
        }
        if !add_rule(&mut rules0, "^!", 54) {
            return None;
        }
        if !add_rule(&mut rules0, "^\\(", 55) {
            return None;
        }
        if !add_rule(&mut rules0, "^\\)", 56) {
            return None;
        }
        if !add_rule(&mut rules0, "^\\[", 57) {
            return None;
        }
        if !add_rule(&mut rules0, "^\\]", 58) {
            return None;
        }
        if !add_rule(&mut rules0, "^\\{", 59) {
            return None;
        }
        if !add_rule(&mut rules0, "^\\}", 60) {
            return None;
        }
        if !add_rule(&mut rules0, "^:", 61) {
            return None;
        }
        if !add_rule(&mut rules0, "^\\s+", 62) {
            return None;
        }
        if !add_rule(&mut rules0, "^\\d+", 63) {
            return None;
        }
        if !add_rule(&mut rules0, "^[A-Za-z][_0-9A-Za-z]*", 64) {
            return None;
        }
        if !add_rule(&mut rules0, "^\"", 65) {
            return None;
        }
        if !add_rule(&mut rules0, "^//[^\\n]*", 66) {
            return None;
        }
        let mut rules1: Vec<(String, u32)> = Vec::new();
        if !add_rule(&mut rules1, "^\\n", 67) {
            return None;
        }
        if !add_rule(&mut rules1, "^\\\\r", 68) {
            return None;
        }
        if !add_rule(&mut rules1, "^$", 69) {
            return None;
        }
        if !add_rule(&mut rules1, "^\"", 70) {
            return None;
        }
        if !add_rule(&mut rules1, "^\\\\n", 71) {
            return None;
        }
        if !add_rule(&mut rules1, "^\\\\t", 72) {
            return None;
        }
        if !add_rule(&mut rules1, "^\\\\\"", 73) {
            return None;
        }
        if !add_rule(&mut rules1, "^\\\\", 74) {
            return None;
        }
        if !add_rule(&mut rules1, "^.", 75) {
            return None;
        }
        let mut states: Vec<LexerState> = Vec::new();
        states.push(LexerState::_Initial);
        let lx = Lexer {
            input,
            pos: 0,
            states,
            cur_line: 1,
            cur_col: 0,
            piece: Vec::new(),
            string_builder: (Vec::new(), 0, 0),
            errors: Vec::new(),
            rules0,
            rules1,
        };
        proof {
            assert(lx.input@.subrange(0, 0) =~= Seq::<u8>::empty());
        }
        Some(lx)
    }

    /// The next token, skipping the pieces whose action yields the empty
    /// token kind.  At the end of the input the end-of-input token is
    /// returned, stamped with the current line and column; a returned
    /// ordinary token's piece is exactly the consumed slice of the input
    /// that ends at the new position, begins at or after the old one, and
    /// is stamped with the line and column dictated by the input prefix
    /// before it.  There is no token exactly when, at the position the
    /// call stopped at, input remains but no rule of the then-current
    /// state can move the cursor (or the state stack is empty).
    pub fn next(&mut self) -> (r: Option<Token>)
        requires
            old(self).inv(),
        ensures
            final(self).inv(),
            final(self).input@ == old(self).input@,
            final(self).rules0@ == old(self).rules0@,
            final(self).rules1@ == old(self).rules1@,
            final(self).pos >= old(self).pos,
            old(self).pos == old(self).input@.len() ==> (r matches Some(t) && t.ty
                == TokenType::_Eof && *final(self) == *old(self)),
            (match r {
                Some(t) => {
                    &&& t.ty != TokenType::_Eps
                    &&& t.ty == TokenType::_Eof ==> final(self).pos == final(self).input@.len()
                        && t.piece@.len() == 0 && t.line == final(self).cur_line && t.col
                        == final(self).cur_col && (exists|n: nat|
                        eps_steps_n(*old(self), *final(self), n))
                    &&& t.ty != TokenType::_Eof ==> {
                        &&& exists|mid: Lexer, n: nat|
                            #[trigger] eps_steps_n(*old(self), mid, n) && lex_step(
                                mid,
                                *final(self),
                                t.ty,
                            )
                        &&& t.piece@.len() > 0
                        &&& final(self).pos > old(self).pos
                        &&& final(self).pos - t.piece@.len() >= old(self).pos
                        &&& t.piece@ == final(self).input@.subrange(
                            final(self).pos - t.piece@.len(),
                            final(self).pos as int,
                        )
                        &&& t.line == line_after(
                            final(self).input@.subrange(0, final(self).pos - t.piece@.len()),
                            1,
                        )
                        &&& t.col == col_after(
                            final(self).input@.subrange(0, final(self).pos - t.piece@.len()),
                            0,
                        )
                    }
                },
                None => {
                    &&& final(self).pos < final(self).input@.len()
                    &&& exists|n: nat| eps_steps_n(*old(self), *final(self), n)
                    &&& final(self).states@.len() == 0 || no_usable_match(
                        lexer_rules_of(final(self)),
                        final(self).input@,
                        final(self).pos as int,
                    )
                },
            }),
    {
        let ghost mut steps: nat = 0;
        loop
            invariant
                self.inv(),
                self.input@ == old(self).input@,
                self.rules0@ == old(self).rules0@,
                self.rules1@ == old(self).rules1@,
                self.pos >= old(self).pos,
                old(self).pos == old(self).input@.len() ==> *self == *old(self),
                eps_steps_n(*old(self), *self, steps),
            decreases self.input@.len() - self.pos,
        {
            let ghost it0 = *self;
            if self.pos == self.input.len() {
                return Some(
                    Token {
                        ty: TokenType::_Eof,
                        piece: Vec::new(),
                        line: self.cur_line,
                        col: self.cur_col,
                    },
                );
            }
            if self.states.len() == 0 {
                return None;
            }
            let st = self.states[self.states.len() - 1];
            let initial = match st {
                LexerState::_Initial => true,
                LexerState::S => false,
            };
            proof {
                assert(self.states@.last() == st);
            }
            let nrules = if initial {
                self.rules0.len()
            } else {
                self.rules1.len()
            };
            let ghost rl = lexer_rules_of(self);
            let mut have = false;
            let mut best_len: usize = 0;
            let mut best_act: u32 = 0;
            let mut j: usize = 0;
            while j < nrules
                invariant
                    self.inv(),
                    self.pos < self.input@.len(),
                    rl == lexer_rules_of(self),
                    self.states@.len() > 0,
                    nrules == rl.len(),
                    (if initial {
                        self.rules0@
                    } else {
                        self.rules1@
                    }) == rl,
                    j <= nrules,
                    best_act < 76,
                    have ==> best_len <= self.input@.len() - self.pos,
                    chosen_match(rl, self.input@, self.pos as int) == scan_rules(
                        rl,
                        self.input@,
                        self.pos as int,
                        j as int,
                        (if have {
                            Some((best_len as int, best_act as int))
                        } else {
                            None::<(int, int)>
                        }),
                    ),
                decreases nrules - j,
            {
                let pat_act = if initial {
                    self.rules0[j].1
                } else {
                    self.rules1[j].1
                };
                let found = if initial {
                    re_match(self.rules0[j].0.as_str(), &self.input, self.pos)
                } else {
                    re_match(self.rules1[j].0.as_str(), &self.input, self.pos)
                };
                proof {
                    assert(rl[j as int].1 == pat_act);
                }
                match found {
                    Some(ab) => {
                        // only a match that starts at the cursor belongs
                        // to an anchored rule
                        if ab.0 == 0 {
                            if !have || ab.1 > best_len {
                                have = true;
                                best_len = ab.1;
                                best_act = pat_act;
                            }
                        }
                    },
                    None => {},
                }
                j += 1;
            }
            if !have {
                return None;
            }
            if best_len == 0 {
                // a zero-width match cannot advance the cursor
                return None;
            }
            proof {
                assert(chosen_match(rl, it0.input@, it0.pos as int) == Some(
                    (best_len as int, best_act as int),
                ));
            }
            let piece = copy_range(&self.input, self.pos, self.pos + best_len);
            self.piece = copy_range(&self.input, self.pos, self.pos + best_len);
            proof {
                lemma_line_col_bounds(self.input@.subrange(0, self.pos as int));
            }
            let ghost before_act = *self;
            let ty = run_act(self, best_act);
            let ghost after_act = *self;
            // advance the cursor over the piece, keeping line and column
            let ghost pos0 = self.pos as int;
            let line0 = self.cur_line;
            let col0 = self.cur_col;
            let mut line = self.cur_line;
            let mut col = self.cur_col;
            let mut k: usize = 0;
            while k < best_len
                invariant
                    self.inv(),
                    pos0 == self.pos as int,
                    self.pos + best_len <= self.input@.len(),
                    k <= best_len,
                    line == line_after(self.input@.subrange(0, pos0 + k), 1),
                    col == col_after(self.input@.subrange(0, pos0 + k), 0),
                    line <= 1 + pos0 + k,
                    col <= pos0 + k,
                decreases best_len - k,
            {
                let b = self.input[self.pos + k];
                proof {
                    assert(self.input@.subrange(0, pos0 + k + 1).drop_last() =~= self
                        .input@.subrange(0, pos0 + k));
                    assert(self.input@.subrange(0, pos0 + k + 1).last() == self.input@[pos0
                        + k]);
                }
                if b == 10 {
                    line = line + 1;
                    col = 0;
                } else {
                    col = col + 1;
                }
                k += 1;
            }
            self.cur_line = line;
            self.cur_col = col;
            self.pos = self.pos + best_len;
            proof {
                // this iteration is one lexing step from `it0`
                assert(act_effect(
                    before_act,
                    before_act.piece@,
                    after_act,
                    best_act as int,
                    ty,
                ));
                assert(before_act.piece@ == piece@);
                assert(act_effect(it0, piece@, after_act, best_act as int, ty));
                assert(rl == lexer_rules_of(&it0));
                let la = chosen_match(lexer_rules_of(&it0), it0.input@, it0.pos as int)->Some_0;
                assert(la == (best_len as int, best_act as int));
                assert(piece@ == it0.input@.subrange(it0.pos as int, it0.pos + la.0));
                assert(act_effect(
                    it0,
                    it0.input@.subrange(it0.pos as int, it0.pos + la.0),
                    after_act,
                    la.1,
                    ty,
                ));
                assert(*self == Lexer {
                    pos: (it0.pos + la.0) as usize,
                    cur_line: line_after(it0.input@.subrange(0, it0.pos + la.0), 1) as u32,
                    cur_col: col_after(it0.input@.subrange(0, it0.pos + la.0), 0) as u32,
                    ..after_act
                });
                assert(lex_step(it0, *self, ty));
            }
            match ty {
                TokenType::_Eps => {
                    proof {
                        lemma_eps_steps_snoc(*old(self), it0, *self, steps);
                        steps = steps + 1;
                    }
                },
                _ => {
                    proof {
                        assert(piece@ == self.input@.subrange(
                            self.pos - piece@.len(),
                            self.pos as int,
                        ));
                        assert(eps_steps_n(*old(self), it0, steps));
                    }
                    return Some(Token { ty, piece, line: line0, col: col0 });
                },
            }
        }
    }
}

/// Copy the byte range `[a, b)` out of `v`.
fn copy_range(v: &Vec<u8>, a: usize, b: usize) -> (r: Vec<u8>)
    requires
        a <= b && b <= v@.len(),
    ensures
        r@ == v@.subrange(a as int, b as int),
{
    let mut r: Vec<u8> = Vec::new();
    let mut i: usize = a;
    while i < b
        invariant
            a <= i <= b,
            b <= v@.len(),
            r@.len() == i - a,
            forall|t: int| 0 <= t < r@.len() ==> r@[t] == v@[a + t],
        decreases b - i,
    {
        r.push(v[i]);
        i += 1;
    }
    proof {
        assert(r@ =~= v@.subrange(a as int, b as int));
    }
    r
}

/// Check one rule's pattern and append it with its action index; reports
/// whether the pattern was accepted.
fn add_rule(rules: &mut Vec<(String, u32)>, pat: &str, act: u32) -> (ok: bool)
    requires
        act < 76,
        forall|j: int| 0 <= j < old(rules)@.len() ==> (#[trigger] old(rules)@[j]).1 < 76,
    ensures
        ok == re_compiles(pat@),
        forall|j: int| 0 <= j < final(rules)@.len() ==> (#[trigger] final(rules)@[j]).1 < 76,
        ok ==> final(rules)@.len() == old(rules)@.len() + 1 && final(rules)@.last().0@ == pat@
            && final(rules)@.last().1 == act,
        !ok ==> final(rules)@ == old(rules)@,
{
    if re_check(pat) {
        rules.push((pat.to_owned(), act));
        true
    } else {
        false
    }
}

/// Bounds on the line and column dictated by a consumed prefix.
proof fn lemma_line_col_bounds(s: Seq<u8>)
    ensures
        line_after(s, 1) <= 1 + s.len(),
        1 <= line_after(s, 1),
        col_after(s, 0) <= s.len(),
        0 <= col_after(s, 0),
    decreases s.len(),
{
    if s.len() > 0 {
        lemma_line_col_bounds(s.drop_last());
    }
}

/// Run the action with the given index.
fn run_act(l: &mut Lexer, act: u32) -> (r: TokenType)
    requires
        act < 76,
        old(l).cur_col < 0xFFFF_FFFF,
    ensures
        act_frame(*old(l), *final(l)),
        act_effect(*old(l), old(l).piece@, *final(l), act as int, r),
        r != TokenType::_Eof,
{
    match act {
        0u32 => lex_act0(l),
        1u32 => lex_act1(l),
        2u32 => lex_act2(l),
        3u32 => lex_act3(l),
        4u32 => lex_act4(l),
        5u32 => lex_act5(l),
        6u32 => lex_act6(l),
        7u32 => lex_act7(l),
        8u32 => lex_act8(l),
        9u32 => lex_act9(l),
        10u32 => lex_act10(l),
        11u32 => lex_act11(l),
        12u32 => lex_act12(l),
        13u32 => lex_act13(l),
        14u32 => lex_act14(l),
        15u32 => lex_act15(l),
        16u32 => lex_act16(l),
        17u32 => lex_act17(l),
        18u32 => lex_act18(l),
        19u32 => lex_act19(l),
        20u32 => lex_act20(l),
        21u32 => lex_act21(l),
        22u32 => lex_act22(l),
        23u32 => lex_act23(l),
        24u32 => lex_act24(l),
        25u32 => lex_act25(l),
        26u32 => lex_act26(l),
        27u32 => lex_act27(l),
        28u32 => lex_act28(l),
        29u32 => lex_act29(l),
        30u32 => lex_act30(l),
        31u32 => lex_act31(l),
        32u32 => lex_act32(l),
        33u32 => lex_act33(l),
        34u32 => lex_act34(l),
        35u32 => lex_act35(l),
        36u32 => lex_act36(l),
        37u32 => lex_act37(l),
        38u32 => lex_act38(l),
        39u32 => lex_act39(l),
        40u32 => lex_act40(l),
        41u32 => lex_act41(l),
        42u32 => lex_act42(l),
        43u32 => lex_act43(l),
        44u32 => lex_act44(l),
        45u32 => lex_act45(l),
        46u32 => lex_act46(l),
        47u32 => lex_act47(l),
        48u32 => lex_act48(l),
        49u32 => lex_act49(l),
        50u32 => lex_act50(l),
        51u32 => lex_act51(l),
        52u32 => lex_act52(l),
        53u32 => lex_act53(l),
        54u32 => lex_act54(l),
        55u32 => lex_act55(l),
        56u32 => lex_act56(l),
        57u32 => lex_act57(l),
        58u32 => lex_act58(l),
        59u32 => lex_act59(l),
        60u32 => lex_act60(l),
        61u32 => lex_act61(l),
        62u32 => lex_act62(l),
        63u32 => lex_act63(l),
        64u32 => lex_act64(l),
        65u32 => lex_act65(l),
        66u32 => lex_act66(l),
        67u32 => lex_act67(l),
        68u32 => lex_act68(l),
        69u32 => lex_act69(l),
        70u32 => lex_act70(l),
        71u32 => lex_act71(l),
        72u32 => lex_act72(l),
        73u32 => lex_act73(l),
        74u32 => lex_act74(l),
        75u32 => lex_act75(l),
        _ => TokenType::_Eps,
    }
}

pub fn lex_act0(_l: &mut Lexer) -> (r: TokenType)
    ensures
        r == TokenType::Void,
        *final(_l) == *old(_l),
{
    TokenType::Void
}

pub fn lex_act1(_l: &mut Lexer) -> (r: TokenType)
    ensures
        r == TokenType::Int,
        *final(_l) == *old(_l),
{
    TokenType::Int
}

pub fn lex_act2(_l: &mut Lexer) -> (r: TokenType)
    ensures
        r == TokenType::Bool,
        *final(_l) == *old(_l),
{
    TokenType::Bool
}

pub fn lex_act3(_l: &mut Lexer) -> (r: TokenType)
    ensures
        r == TokenType::String,
        *final(_l) == *old(_l),
{
    TokenType::String
}

pub fn lex_act4(_l: &mut Lexer) -> (r: TokenType)
    ensures
        r == TokenType::New,
        *final(_l) == *old(_l),
{
    TokenType::New
}

pub fn lex_act5(_l: &mut Lexer) -> (r: TokenType)
    ensures
        r == TokenType::Null,
        *final(_l) == *old(_l),
{
    TokenType::Null
}

pub fn lex_act6(_l: &mut Lexer) -> (r: TokenType)
    ensures
        r == TokenType::True,
        *final(_l) == *old(_l),
{
    TokenType::True
}

pub fn lex_act7(_l: &mut Lexer) -> (r: TokenType)
    ensures
        r == TokenType::False,
        *final(_l) == *old(_l),
{
    TokenType::False
}

pub fn lex_act8(_l: &mut Lexer) -> (r: TokenType)
    ensures
        r == TokenType::Class,
        *final(_l) == *old(_l),
{
    TokenType::Class
}

pub fn lex_act9(_l: &mut Lexer) -> (r: TokenType)
    ensures
        r == TokenType::Extends,
        *final(_l) == *old(_l),
{
    TokenType::Extends
}

pub fn lex_act10(_l: &mut Lexer) -> (r: TokenType)
    ensures
        r == TokenType::This,
        *final(_l) == *old(_l),
{
    TokenType::This
}

pub fn lex_act11(_l: &mut Lexer) -> (r: TokenType)
    ensures
        r == TokenType::While,
        *final(_l) == *old(_l),
{
    TokenType::While
}

pub fn lex_act12(_l: &mut Lexer) -> (r: TokenType)
    ensures
        r == TokenType::Foreach,
        *final(_l) == *old(_l),
{
    TokenType::Foreach
}

pub fn lex_act13(_l: &mut Lexer) -> (r: TokenType)
    ensures
        r == TokenType::For,
        *final(_l) == *old(_l),
{
    TokenType::For
}

pub fn lex_act14(_l: &mut Lexer) -> (r: TokenType)
    ensures
        r == TokenType::If,
        *final(_l) == *old(_l),
{
    TokenType::If
}

pub fn lex_act15(_l: &mut Lexer) -> (r: TokenType)
    ensures
        r == TokenType::Else,
        *final(_l) == *old(_l),
{
    TokenType::Else
}

pub fn lex_act16(_l: &mut Lexer) -> (r: TokenType)
    ensures
        r == TokenType::Return,
        *final(_l) == *old(_l),
{
    TokenType::Return
}

pub fn lex_act17(_l: &mut Lexer) -> (r: TokenType)
    ensures
        r == TokenType::Break,
        *final(_l) == *old(_l),
{
    TokenType::Break
}

pub fn lex_act18(_l: &mut Lexer) -> (r: TokenType)
    ensures
        r == TokenType::Print,
        *final(_l) == *old(_l),
{
    TokenType::Print
}

pub fn lex_act19(_l: &mut Lexer) -> (r: TokenType)
    ensures
        r == TokenType::ReadInteger,
        *final(_l) == *old(_l),
{
    TokenType::ReadInteger
}

pub fn lex_act20(_l: &mut Lexer) -> (r: TokenType)
    ensures
        r == TokenType::ReadLine,
        *final(_l) == *old(_l),
{
    TokenType::ReadLine
}

pub fn lex_act21(_l: &mut Lexer) -> (r: TokenType)
    ensures
        r == TokenType::Static,
        *final(_l) == *old(_l),
{
    TokenType::Static
}

pub fn lex_act22(_l: &mut Lexer) -> (r: TokenType)
    ensures
        r == TokenType::InstanceOf,
        *final(_l) == *old(_l),
{
    TokenType::InstanceOf
}

pub fn lex_act23(_l: &mut Lexer) -> (r: TokenType)
    ensures
        r == TokenType::SCopy,
        *final(_l) == *old(_l),
{
    TokenType::SCopy
}

pub fn lex_act24(_l: &mut Lexer) -> (r: TokenType)
    ensures
        r == TokenType::Sealed,
        *final(_l) == *old(_l),
{
    TokenType::Sealed
}

pub fn lex_act25(_l: &mut Lexer) -> (r: TokenType)
    ensures
        r == TokenType::Var,
        *final(_l) == *old(_l),
{
    TokenType::Var
}

pub fn lex_act26(_l: &mut Lexer) -> (r: TokenType)
    ensures
        r == TokenType::Default,
        *final(_l) == *old(_l),
{
    TokenType::Default
}

pub fn lex_act27(_l: &mut Lexer) -> (r: TokenType)
    ensures
        r == TokenType::In,
        *final(_l) == *old(_l),
{
    TokenType::In
}

pub fn lex_act28(_l: &mut Lexer) -> (r: TokenType)
    ensures
        r == TokenType::GuardSplit,
        *final(_l) == *old(_l),
{
    TokenType::GuardSplit
}

pub fn lex_act29(_l: &mut Lexer) -> (r: TokenType)
    ensures
        r == TokenType::Le,
        *final(_l) == *old(_l),
{
    TokenType::Le
}

pub fn lex_act30(_l: &mut Lexer) -> (r: TokenType)
    ensures
        r == TokenType::Ge,
        *final(_l) == *old(_l),
{
    TokenType::Ge
}

pub fn lex_act31(_l: &mut Lexer) -> (r: TokenType)
    ensures
        r == TokenType::Eq,
        *final(_l) == *old(_l),
{
    TokenType::Eq
}

pub fn lex_act32(_l: &mut Lexer) -> (r: TokenType)
    ensures
        r == TokenType::Ne,
        *final(_l) == *old(_l),
{
    TokenType::Ne
}

pub fn lex_act33(_l: &mut Lexer) -> (r: TokenType)
    ensures
        r == TokenType::And,
        *final(_l) == *old(_l),
{
    TokenType::And
}

pub fn lex_act34(_l: &mut Lexer) -> (r: TokenType)
    ensures
        r == TokenType::Or,
        *final(_l) == *old(_l),
{
    TokenType::Or
}

pub fn lex_act35(_l: &mut Lexer) -> (r: TokenType)
    ensures
        r == TokenType::Repeat,
        *final(_l) == *old(_l),
{
    TokenType::Repeat
}

pub fn lex_act36(_l: &mut Lexer) -> (r: TokenType)
    ensures
        r == TokenType::Inc,
        *final(_l) == *old(_l),
{
    TokenType::Inc
}

pub fn lex_act37(_l: &mut Lexer) -> (r: TokenType)
    ensures
        r == TokenType::Dec,
        *final(_l) == *old(_l),
{
    TokenType::Dec
}

pub fn lex_act38(_l: &mut Lexer) -> (r: TokenType)
    ensures
        r == TokenType::Shl,
        *final(_l) == *old(_l),
{
    TokenType::Shl
}

pub fn lex_act39(_l: &mut Lexer) -> (r: TokenType)
    ensures
        r == TokenType::Shr,
        *final(_l) == *old(_l),
{
    TokenType::Shr
}

pub fn lex_act40(_l: &mut Lexer) -> (r: TokenType)
    ensures
        r == TokenType::Add,
        *final(_l) == *old(_l),
{
    TokenType::Add
}

pub fn lex_act41(_l: &mut Lexer) -> (r: TokenType)
    ensures
        r == TokenType::Sub,
        *final(_l) == *old(_l),
{
    TokenType::Sub
}

pub fn lex_act42(_l: &mut Lexer) -> (r: TokenType)
    ensures
        r == TokenType::Mul,
        *final(_l) == *old(_l),
{
    TokenType::Mul
}

pub fn lex_act43(_l: &mut Lexer) -> (r: TokenType)
    ensures
        r == TokenType::Div,
        *final(_l) == *old(_l),
{
    TokenType::Div
}

pub fn lex_act44(_l: &mut Lexer) -> (r: TokenType)
    ensures
        r == TokenType::Mod,
        *final(_l) == *old(_l),
{
    TokenType::Mod
}

pub fn lex_act45(_l: &mut Lexer) -> (r: TokenType)
    ensures
        r == TokenType::BAnd,
        *final(_l) == *old(_l),
{
    TokenType::BAnd
}

pub fn lex_act46(_l: &mut Lexer) -> (r: TokenType)
    ensures
        r == TokenType::BOr,
        *final(_l) == *old(_l),
{
    TokenType::BOr
}

pub fn lex_act47(_l: &mut Lexer) -> (r: TokenType)
    ensures
        r == TokenType::BXor,
        *final(_l) == *old(_l),
{
    TokenType::BXor
}

pub fn lex_act48(_l: &mut Lexer) -> (r: TokenType)
    ensures
        r == TokenType::Eq,
        *final(_l) == *old(_l),
{
    TokenType::Eq
}

pub fn lex_act49(_l: &mut Lexer) -> (r: TokenType)
    ensures
        r == TokenType::Lt,
        *final(_l) == *old(_l),
{
    TokenType::Lt
}

pub fn lex_act50(_l: &mut Lexer) -> (r: TokenType)
    ensures
        r == TokenType::Gt,
        *final(_l) == *old(_l),
{
    TokenType::Gt
}

pub fn lex_act51(_l: &mut Lexer) -> (r: TokenType)
    ensures
        r == TokenType::Dot,
        *final(_l) == *old(_l),
{
    TokenType::Dot
}

pub fn lex_act52(_l: &mut Lexer) -> (r: TokenType)
    ensures
        r == TokenType::Comma,
        *final(_l) == *old(_l),
{
    TokenType::Comma
}

pub fn lex_act53(_l: &mut Lexer) -> (r: TokenType)
    ensures
        r == TokenType::Semicolon,
        *final(_l) == *old(_l),
{
    TokenType::Semicolon
}

pub fn lex_act54(_l: &mut Lexer) -> (r: TokenType)
    ensures
        r == TokenType::Not,
        *final(_l) == *old(_l),
{
    TokenType::Not
}

pub fn lex_act55(_l: &mut Lexer) -> (r: TokenType)
    ensures
        r == TokenType::LParenthesis,
        *final(_l) == *old(_l),
{
    TokenType::LParenthesis
}

pub fn lex_act56(_l: &mut Lexer) -> (r: TokenType)
    ensures
        r == TokenType::RParenthesis,
        *final(_l) == *old(_l),
{
    TokenType::RParenthesis
}

pub fn lex_act57(_l: &mut Lexer) -> (r: TokenType)
    ensures
        r == TokenType::LBracket,
        *final(_l) == *old(_l),
{
    TokenType::LBracket
}

pub fn lex_act58(_l: &mut Lexer) -> (r: TokenType)
    ensures
        r == TokenType::RBracket,
        *final(_l) == *old(_l),
{
    TokenType::RBracket
}

pub fn lex_act59(_l: &mut Lexer) -> (r: TokenType)
    ensures
        r == TokenType::LBrace,
        *final(_l) == *old(_l),
{
    TokenType::LBrace
}

pub fn lex_act60(_l: &mut Lexer) -> (r: TokenType)
    ensures
        r == TokenType::RBrace,
        *final(_l) == *old(_l),
{
    TokenType::RBrace
}

pub fn lex_act61(_l: &mut Lexer) -> (r: TokenType)
    ensures
        r == TokenType::Colon,
        *final(_l) == *old(_l),
{
    TokenType::Colon
}

pub fn lex_act62(_l: &mut Lexer) -> (r: TokenType)
    ensures
        r == TokenType::_Eps,
        *final(_l) == *old(_l),
{
    TokenType::_Eps
}

pub fn lex_act63(_l: &mut Lexer) -> (r: TokenType)
    ensures
        r == TokenType::Int,
        *final(_l) == *old(_l),
{
    TokenType::Int
}

pub fn lex_act64(_l: &mut Lexer) -> (r: TokenType)
    ensures
        r == TokenType::Identifier,
        *final(_l) == *old(_l),
{
    TokenType::Identifier
}

pub fn lex_act66(_l: &mut Lexer) -> (r: TokenType)
    ensures
        r == TokenType::_Eps,
        *final(_l) == *old(_l),
{
    TokenType::_Eps
}

pub fn lex_act67(_l: &mut Lexer) -> (r: TokenType)
    ensures
        r == TokenType::_Eps,
        *final(_l) == *old(_l),
{
    TokenType::_Eps
}

pub fn lex_act68(_l: &mut Lexer) -> (r: TokenType)
    ensures
        r == TokenType::_Eps,
        *final(_l) == *old(_l),
{
    TokenType::_Eps
}

pub fn lex_act69(_l: &mut Lexer) -> (r: TokenType)
    ensures
        r == TokenType::_Eps,
        *final(_l) == *old(_l),
{
    TokenType::_Eps
}

/// Enter the string-literal state and reset the string builder to the
/// current position (the column just after the opening quote).
pub fn lex_act65(_l: &mut Lexer) -> (r: TokenType)
    requires
        _l.cur_col < 0xFFFF_FFFF,
    ensures
        r == TokenType::_Eps,
        act_frame(*old(_l), *final(_l)),
        final(_l).states@ == old(_l).states@.push(LexerState::S),
        final(_l).string_builder.0@ == Seq::<u8>::empty(),
        final(_l).string_builder.1 == old(_l).cur_line,
        final(_l).string_builder.2 == old(_l).cur_col + 1,
{
    _l.states.push(LexerState::S);
    _l.string_builder.0.clear();
    _l.string_builder.1 = _l.cur_line;
    _l.string_builder.2 = _l.cur_col + 1;
    TokenType::_Eps
}

/// Leave the string-literal state.
pub fn lex_act70(_l: &mut Lexer) -> (r: TokenType)
    ensures
        r == TokenType::String,
        act_frame(*old(_l), *final(_l)),
        final(_l).string_builder == old(_l).string_builder,
        old(_l).states@.len() > 0 ==> final(_l).states@ == old(_l).states@.drop_last(),
        old(_l).states@.len() == 0 ==> final(_l).states@ == old(_l).states@,
{
    _l.states.pop();
    TokenType::String
}

pub fn lex_act71(_l: &mut Lexer) -> (r: TokenType)
    ensures
        r == TokenType::_Eps,
        act_frame(*old(_l), *final(_l)),
        final(_l).states@ == old(_l).states@,
        final(_l).string_builder.0@ == old(_l).string_builder.0@.push(10u8),
        final(_l).string_builder.1 == old(_l).string_builder.1,
        final(_l).string_builder.2 == old(_l).string_builder.2,
{
    _l.string_builder.0.push(10u8);
    TokenType::_Eps
}

pub fn lex_act72(_l: &mut Lexer) -> (r: TokenType)
    ensures
        r == TokenType::_Eps,
        act_frame(*old(_l), *final(_l)),
        final(_l).states@ == old(_l).states@,
        final(_l).string_builder.0@ == old(_l).string_builder.0@.push(9u8),
        final(_l).string_builder.1 == old(_l).string_builder.1,
        final(_l).string_builder.2 == old(_l).string_builder.2,
{
    _l.string_builder.0.push(9u8);
    TokenType::_Eps
}

pub fn lex_act73(_l: &mut Lexer) -> (r: TokenType)
    ensures
        r == TokenType::_Eps,
        act_frame(*old(_l), *final(_l)),
        final(_l).states@ == old(_l).states@,
        final(_l).string_builder.0@ == old(_l).string_builder.0@.push(34u8),
        final(_l).string_builder.1 == old(_l).string_builder.1,
        final(_l).string_builder.2 == old(_l).string_builder.2,
{
    _l.string_builder.0.push(34u8);
    TokenType::_Eps
}

pub fn lex_act74(_l: &mut Lexer) -> (r: TokenType)
    ensures
        r == TokenType::_Eps,
        act_frame(*old(_l), *final(_l)),
        final(_l).states@ == old(_l).states@,
        final(_l).string_builder.0@ == old(_l).string_builder.0@.push(92u8),
        final(_l).string_builder.1 == old(_l).string_builder.1,
        final(_l).string_builder.2 == old(_l).string_builder.2,
{
    _l.string_builder.0.push(92u8);
    TokenType::_Eps
}

/// Append the matched piece to the string builder.
pub fn lex_act75(_l: &mut Lexer) -> (r: TokenType)
    ensures
        r == TokenType::_Eps,
        act_frame(*old(_l), *final(_l)),
        final(_l).states@ == old(_l).states@,
        final(_l).string_builder.0@ == old(_l).string_builder.0@ + old(_l).piece@,
        final(_l).string_builder.1 == old(_l).string_builder.1,
        final(_l).string_builder.2 == old(_l).string_builder.2,
{
    let n = _l.piece.len();
    let mut i: usize = 0;
    while i < n
        invariant
            n == _l.piece@.len(),
            i <= n,
            act_frame(*old(_l), *_l),
            _l.states@ == old(_l).states@,
            _l.string_builder.0@ == old(_l).string_builder.0@ + old(_l).piece@.subrange(
                0,
                i as int,
            ),
            _l.string_builder.1 == old(_l).string_builder.1,
            _l.string_builder.2 == old(_l).string_builder.2,
        decreases n - i,
    {
        let b = _l.piece[i];
        _l.string_builder.0.push(b);
        proof {
            assert(old(_l).piece@.subrange(0, i + 1).drop_last() =~= old(_l).piece@.subrange(
                0,
                i as int,
            ));
            assert(_l.string_builder.0@ =~= old(_l).string_builder.0@ + old(
                _l,
            ).piece@.subrange(0, i + 1));
        }
        i += 1;
    }
    proof {
        assert(old(_l).piece@.subrange(0, n as int) =~= old(_l).piece@);
    }
    TokenType::_Eps
}

} // verus!
