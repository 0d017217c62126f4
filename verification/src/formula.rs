//! A parser from formal first-order-logic surface text to [`ProofExpr`].
//!
//! An identifier that leads with an uppercase letter or a digit is a constant, one that
//! leads otherwise is a variable. Connectives, lowest precedence first: quantifiers
//! (`for all`, `there exists`) < `iff` < implication (`if … then …`, `implies`, `->`,
//! right-associative) < `or` < `and` < `not` < atoms. English and symbolic spellings are
//! both accepted: `and`/`∧`, `or`/`∨`, `not`/`¬`, `implies`/`->`/`→`, `iff`/`<->`/`↔`,
//! `for all`/`forall`/`∀`, `there exists`/`exists`/`∃`.

use vstd::prelude::*;
use crate::expr::{ProofExpr, ProofTerm, Expr, Term};

verus! {

// ---------------------------------------------------------------------------
// Character classes and case folding, as std computes them
// ---------------------------------------------------------------------------

/// The Unicode `White_Space` property, which `char::is_whitespace` tests: the ASCII tab, line
/// feed, vertical tab, form feed, carriage return and space, and `U+0085`, `U+00A0`, `U+1680`,
/// `U+2000`..`U+200A`, `U+2028`, `U+2029`, `U+202F`, `U+205F`, `U+3000`.
pub open spec fn whitespace_char(c: char) -> bool {
    let u = c as u32;
    ||| 0x9 <= u <= 0xD
    ||| u == 0x20 || u == 0x85 || u == 0xA0 || u == 0x1680
    ||| 0x2000 <= u <= 0x200A
    ||| u == 0x2028 || u == 0x2029 || u == 0x202F || u == 0x205F || u == 0x3000
}

/// An ASCII character.
pub open spec fn is_ascii_char(c: char) -> bool {
    (c as u32) < 0x80
}

/// What `char::is_alphanumeric` returns for a non-ASCII `c` (alphabetic or numeric).
pub uninterp spec fn wide_alphanumeric(c: char) -> bool;

/// What `char::is_alphanumeric` returns for `c`: for ASCII, exactly the letters and digits.
pub open spec fn alphanumeric_char(c: char) -> bool {
    if is_ascii_char(c) {
        ('a' <= c && c <= 'z') || ('A' <= c && c <= 'Z') || ('0' <= c && c <= '9')
    } else {
        wide_alphanumeric(c)
    }
}

/// What `char::is_uppercase` returns for a non-ASCII `c` (the Unicode `Uppercase` property).
pub uninterp spec fn wide_uppercase(c: char) -> bool;

/// What `char::is_uppercase` returns for `c`: for ASCII, exactly `A` to `Z`.
pub open spec fn uppercase_char(c: char) -> bool {
    if is_ascii_char(c) {
        'A' <= c && c <= 'Z'
    } else {
        wide_uppercase(c)
    }
}

/// The ASCII lowercase of a character: `A` to `Z` become `a` to `z`, the rest stay.
pub open spec fn ascii_lower(c: char) -> char {
    if 'A' <= c && c <= 'Z' {
        ((c as u32) + 32) as char
    } else {
        c
    }
}

/// What `str::to_lowercase` returns for a text that is not all ASCII (Unicode lowercase
/// mapping).
pub uninterp spec fn wide_lowercase(s: Seq<char>) -> Seq<char>;

/// What `str::to_lowercase` returns for the text `s`: for an ASCII text, each letter lowered.
pub open spec fn lowercase(s: Seq<char>) -> Seq<char> {
    if forall|i: int| 0 <= i < s.len() ==> is_ascii_char(#[trigger] s[i]) {
        Seq::new(s.len(), |i: int| ascii_lower(s[i]))
    } else {
        wide_lowercase(s)
    }
}

/// Whether `c` has the `White_Space` property (what `char::is_whitespace` tests).
fn is_whitespace(c: char) -> (r: bool)
    ensures
        r == whitespace_char(c),
{
    let u = c as u32;
    (0x9 <= u && u <= 0xD) || u == 0x20 || u == 0x85 || u == 0xA0 || u == 0x1680 || (0x2000 <= u && u <= 0x200A)
        || u == 0x2028 || u == 0x2029 || u == 0x202F || u == 0x205F || u == 0x3000
}

/// Calls `char::is_alphanumeric`: letters and digits for ASCII; beyond ASCII the result is
/// named, not stated.
#[verifier::external_body]
fn is_alphanumeric(c: char) -> (r: bool)
    ensures
        r == alphanumeric_char(c),
        !is_ascii_char(c) ==> r == wide_alphanumeric(c),
{
    c.is_alphanumeric()
}

/// Calls `char::is_uppercase`: `A` to `Z` for ASCII; beyond ASCII the result is named, not
/// stated.
#[verifier::external_body]
fn is_uppercase(c: char) -> (r: bool)
    ensures
        r == uppercase_char(c),
        !is_ascii_char(c) ==> r == wide_uppercase(c),
{
    c.is_uppercase()
}

/// Calls `str::to_lowercase` on the string: ASCII letters lowered for an ASCII text; beyond
/// ASCII the result is named, not stated.
#[verifier::external_body]
pub(crate) fn to_lowercase(s: &String) -> (r: String)
    ensures
        r@ == lowercase(s@),
        !(forall|i: int| 0 <= i < s@.len() ==> is_ascii_char(#[trigger] s@[i])) ==> r@ == wide_lowercase(s@),
{
    s.to_lowercase()
}

/// Calls `String::push`, which appends `c` to the end of the string.
#[verifier::external_body]
pub(crate) fn push_char(s: &mut String, c: char)
    ensures
        final(s)@ == old(s)@.push(c),
{
    s.push(c)
}

// ---------------------------------------------------------------------------
// Tokens
// ---------------------------------------------------------------------------

/// A token of the surface syntax.
#[derive(Debug)]
pub enum Tok {
    Ident(String),
    LParen,
    RParen,
    Comma,
    Eq,
    Arrow,
    Iff,
    And,
    Or,
    Not,
    Forall,
    Exists,
    Dot,
}

/// The model of a token.
pub enum TokV {
    Ident(Seq<char>),
    LParen,
    RParen,
    Comma,
    Eq,
    Arrow,
    Iff,
    And,
    Or,
    Not,
    Forall,
    Exists,
    Dot,
}

impl View for Tok {
    type V = TokV;

    open spec fn view(&self) -> TokV {
        match self {
            Tok::Ident(s) => TokV::Ident(s@),
            Tok::LParen => TokV::LParen,
            Tok::RParen => TokV::RParen,
            Tok::Comma => TokV::Comma,
            Tok::Eq => TokV::Eq,
            Tok::Arrow => TokV::Arrow,
            Tok::Iff => TokV::Iff,
            Tok::And => TokV::And,
            Tok::Or => TokV::Or,
            Tok::Not => TokV::Not,
            Tok::Forall => TokV::Forall,
            Tok::Exists => TokV::Exists,
            Tok::Dot => TokV::Dot,
        }
    }
}

/// The tokens as models.
pub open spec fn toks_view(ts: Seq<Tok>) -> Seq<TokV> {
    Seq::new(ts.len(), |i: int| ts[i]@)
}

/// A character that continues an identifier.
pub open spec fn word_char(c: char) -> bool {
    alphanumeric_char(c) || c == '_'
}

/// Where the identifier starting at `i` ends.
pub open spec fn ident_end(cs: Seq<char>, i: nat) -> nat
    decreases cs.len() - i,
{
    if i < cs.len() && word_char(cs[i as int]) { ident_end(cs, i + 1) } else { i }
}

/// An identifier ends after at least its first character, within the text, at the first
/// character that cannot continue it.
pub proof fn lemma_ident_end(cs: Seq<char>, i: nat)
    requires
        i <= cs.len(),
    ensures
        i <= ident_end(cs, i) <= cs.len(),
        i < cs.len() && word_char(cs[i as int]) ==> ident_end(cs, i) > i,
        forall|k: int| i <= k < ident_end(cs, i) ==> word_char(#[trigger] cs[k]),
        ident_end(cs, i) < cs.len() ==> !word_char(cs[ident_end(cs, i) as int]),
    decreases cs.len() - i,
{
    if i < cs.len() && word_char(cs[i as int]) {
        lemma_ident_end(cs, i + 1);
    }
}

/// Put a token in front of a token list (or pass an error on).
pub open spec fn cons_tok(t: TokV, rest: Result<Seq<TokV>, char>) -> Result<Seq<TokV>, char> {
    match rest {
        Ok(ts) => Ok(seq![t] + ts),
        Err(c) => Err(c),
    }
}

/// The tokens of `cs` from position `i`, or the first character no token starts with.
/// Whitespace and `;` separate tokens and are dropped; `.` is a token of its own (it ends a
/// quantifier's variable list, and closes the text).
pub open spec fn tokens_from(cs: Seq<char>, i: nat) -> Result<Seq<TokV>, char>
    decreases cs.len() - i,
{
    if i >= cs.len() {
        Ok(Seq::empty())
    } else {
        let c = cs[i as int];
        if whitespace_char(c) {
            tokens_from(cs, i + 1)
        } else if c == '(' {
            cons_tok(TokV::LParen, tokens_from(cs, i + 1))
        } else if c == ')' {
            cons_tok(TokV::RParen, tokens_from(cs, i + 1))
        } else if c == ',' {
            cons_tok(TokV::Comma, tokens_from(cs, i + 1))
        } else if c == '.' {
            cons_tok(TokV::Dot, tokens_from(cs, i + 1))
        } else if c == ';' {
            tokens_from(cs, i + 1)
        } else if c == '=' {
            cons_tok(TokV::Eq, tokens_from(cs, i + 1))
        } else if c == '∧' {
            cons_tok(TokV::And, tokens_from(cs, i + 1))
        } else if c == '∨' {
            cons_tok(TokV::Or, tokens_from(cs, i + 1))
        } else if c == '¬' {
            cons_tok(TokV::Not, tokens_from(cs, i + 1))
        } else if c == '∀' {
            cons_tok(TokV::Forall, tokens_from(cs, i + 1))
        } else if c == '∃' {
            cons_tok(TokV::Exists, tokens_from(cs, i + 1))
        } else if c == '→' {
            cons_tok(TokV::Arrow, tokens_from(cs, i + 1))
        } else if c == '↔' {
            cons_tok(TokV::Iff, tokens_from(cs, i + 1))
        } else if c == '-' && i + 1 < cs.len() && cs[i + 1int] == '>' {
            cons_tok(TokV::Arrow, tokens_from(cs, i + 2))
        } else if c == '<' && i + 2 < cs.len() && cs[i + 1int] == '-' && cs[i + 2int] == '>' {
            cons_tok(TokV::Iff, tokens_from(cs, i + 3))
        } else if word_char(c) {
            let j = ident_end(cs, i);
            proof {
                lemma_ident_end(cs, i);
            }
            cons_tok(TokV::Ident(cs.subrange(i as int, j as int)), tokens_from(cs, j))
        } else {
            Err(c)
        }
    }
}

fn text_chars(input: &str) -> (cs: Vec<char>)
    ensures
        cs@ == input@,
{
    let n = input.unicode_len();
    let mut cs: Vec<char> = Vec::new();
    let mut i: usize = 0;
    while i < n
        invariant
            n == input@.len(),
            i <= n,
            cs@ == input@.take(i as int),
        decreases n - i,
    {
        let c = input.get_char(i);
        proof {
            assert(input@.take(i + 1) =~= input@.take(i as int).push(c));
        }
        cs.push(c);
        i += 1;
    }
    proof {
        assert(input@.take(n as int) =~= input@);
    }
    cs
}

fn simple_tok(c: char) -> (t: Option<Tok>)
    ensures
        t matches Some(tok) ==> (c == '(' && tok@ == TokV::LParen) || (c == ')' && tok@ == TokV::RParen) || (c == ','
            && tok@ == TokV::Comma) || (c == '=' && tok@ == TokV::Eq) || (c == '∧' && tok@ == TokV::And) || (c
            == '∨' && tok@ == TokV::Or) || (c == '¬' && tok@ == TokV::Not) || (c == '∀' && tok@ == TokV::Forall)
            || (c == '∃' && tok@ == TokV::Exists) || (c == '→' && tok@ == TokV::Arrow) || (c == '↔' && tok@
            == TokV::Iff) || (c == '.' && tok@ == TokV::Dot),
        t is None <==> !(c == '(' || c == ')' || c == ',' || c == '=' || c == '∧' || c == '∨' || c == '¬' || c
            == '∀' || c == '∃' || c == '→' || c == '↔' || c == '.'),
{
    if c == '(' {
        Some(Tok::LParen)
    } else if c == ')' {
        Some(Tok::RParen)
    } else if c == ',' {
        Some(Tok::Comma)
    } else if c == '=' {
        Some(Tok::Eq)
    } else if c == '∧' {
        Some(Tok::And)
    } else if c == '∨' {
        Some(Tok::Or)
    } else if c == '¬' {
        Some(Tok::Not)
    } else if c == '∀' {
        Some(Tok::Forall)
    } else if c == '∃' {
        Some(Tok::Exists)
    } else if c == '→' {
        Some(Tok::Arrow)
    } else if c == '↔' {
        Some(Tok::Iff)
    } else if c == '.' {
        Some(Tok::Dot)
    } else {
        None
    }
}

/// Split the text into tokens; `Err(c)` names the first character no token starts with.
fn tokenize(input: &str) -> (r: Result<Vec<Tok>, char>)
    ensures
        match r {
            Ok(ts) => tokens_from(input@, 0) == Ok::<Seq<TokV>, char>(toks_view(ts@)),
            Err(c) => tokens_from(input@, 0) == Err::<Seq<TokV>, char>(c),
        },
{
    let chars = text_chars(input);
    let n = chars.len();
    let mut toks: Vec<Tok> = Vec::new();
    let mut i: usize = 0;
    while i < n
        invariant
            n == chars@.len(),
            chars@ == input@,
            i <= n,
            tokens_from(input@, 0) == cons_all(toks_view(toks@), tokens_from(input@, i as nat)),
        decreases n - i,
    {
        let c = chars[i];
        let ghost before = toks_view(toks@);
        if is_whitespace(c) {
            i += 1;
            continue;
        }
        match simple_tok(c) {
            Some(t) => {
                proof {
                    assert(c != ';' && c != '-' && c != '<');
                }
                toks.push(t);
                i += 1;
                proof {
                    assert(toks_view(toks@) =~= before.push(t@));
                    lemma_cons_all_push(before, t@, tokens_from(input@, i as nat));
                }
                continue;
            },
            None => {},
        }
        if c == ';' {
            i += 1;
        } else if c == '-' && i + 1 < n && chars[i + 1] == '>' {
            toks.push(Tok::Arrow);
            i += 2;
            proof {
                assert(toks_view(toks@) =~= before.push(TokV::Arrow));
                lemma_cons_all_push(before, TokV::Arrow, tokens_from(input@, i as nat));
            }
        } else if c == '<' && n - i > 2 && chars[i + 1] == '-' && chars[i + 2] == '>' {
            toks.push(Tok::Iff);
            i += 3;
            proof {
                assert(toks_view(toks@) =~= before.push(TokV::Iff));
                lemma_cons_all_push(before, TokV::Iff, tokens_from(input@, i as nat));
            }
        } else if is_alphanumeric(c) || c == '_' {
            let start = i;
            let mut s = String::new();
            proof {
                lemma_ident_end(input@, i as nat);
            }
            while i < n && (is_alphanumeric(chars[i]) || chars[i] == '_')
                invariant
                    n == chars@.len(),
                    chars@ == input@,
                    start <= i <= n,
                    i <= ident_end(input@, start as nat),
                    ident_end(input@, i as nat) == ident_end(input@, start as nat),
                    s@ == input@.subrange(start as int, i as int),
                decreases n - i,
            {
                push_char(&mut s, chars[i]);
                proof {
                    lemma_ident_end(input@, (i + 1) as nat);
                    assert(input@.subrange(start as int, i + 1) =~= input@.subrange(start as int, i as int).push(
                        input@[i as int]));
                }
                i += 1;
            }
            proof {
                assert(ident_end(input@, i as nat) == i);
                assert(i == ident_end(input@, start as nat));
            }
            let t = Tok::Ident(s);
            proof {
                assert(t@ == TokV::Ident(input@.subrange(start as int, i as int)));
            }
            toks.push(t);
            proof {
                assert(toks_view(toks@) =~= before.push(t@));
                lemma_cons_all_push(before, t@, tokens_from(input@, i as nat));
            }
        } else {
            proof {
                assert(tokens_from(input@, i as nat) == Err::<Seq<TokV>, char>(c));
                assert(cons_all(before, Err::<Seq<TokV>, char>(c)) == Err::<Seq<TokV>, char>(c));
            }
            return Err(c);
        }
    }
    proof {
        assert(tokens_from(input@, i as nat) == Ok::<Seq<TokV>, char>(Seq::empty()));
        assert(toks_view(toks@) + Seq::<TokV>::empty() =~= toks_view(toks@));
        assert(cons_all(toks_view(toks@), tokens_from(input@, i as nat)) == Ok::<Seq<TokV>, char>(toks_view(toks@)));
    }
    Ok(toks)
}

/// Put all of `ts` in front of a token list (or pass an error on).
pub open spec fn cons_all(ts: Seq<TokV>, rest: Result<Seq<TokV>, char>) -> Result<Seq<TokV>, char> {
    match rest {
        Ok(us) => Ok(ts + us),
        Err(c) => Err(c),
    }
}

proof fn lemma_cons_all_push(ts: Seq<TokV>, t: TokV, rest: Result<Seq<TokV>, char>)
    ensures
        cons_all(ts, cons_tok(t, rest)) == cons_all(ts.push(t), rest),
{
    match rest {
        Ok(us) => {
            assert(ts + (seq![t] + us) =~= ts.push(t) + us);
        },
        Err(c) => {},
    }
}

// ---------------------------------------------------------------------------
// Errors
// ---------------------------------------------------------------------------

/// A failure to parse formal-logic surface text.
#[derive(Debug, Clone, PartialEq, Eq)]
pub struct FormulaError {
    pub message: String,
}

impl FormulaError {
    pub(crate) fn new(message: String) -> (e: FormulaError)
        ensures
            e.message@ == message@,
    {
        FormulaError { message }
    }

    /// The error as text, prefixed the way it is displayed.
    pub fn to_text(&self) -> (r: String)
        ensures
            r@ == "formula parse error: "@ + self.message@,
    {
        let mut r = String::from_str("formula parse error: ");
        r.append(self.message.as_str());
        r
    }
}

/// Why parsing failed.
pub enum ParseFailure {
    UnexpectedChar(char),
    Trailing(Option<TokV>),
    ExpectedAllAfterFor,
    ExpectedExistsAfterThere,
    NoBoundVariables,
    ExpectedThen,
    ExpectedRParen,
    ExpectedAtom(Option<TokV>),
    ExpectedRelationClose,
    ExpectedTerm(Option<TokV>),
}

/// What `Debug` of `str` writes for the text `s`: the text in double quotes, each character
/// escaped for `Debug` (as `char::escape_debug` does, but for `'`).
pub uninterp spec fn debug_str(s: Seq<char>) -> Seq<char>;

/// The `Debug` text of a token: the variant's name, and an identifier's text in quotes.
pub open spec fn tok_debug(t: TokV) -> Seq<char> {
    match t {
        TokV::Ident(s) => "Ident("@ + debug_str(s) + ")"@,
        TokV::LParen => "LParen"@,
        TokV::RParen => "RParen"@,
        TokV::Comma => "Comma"@,
        TokV::Eq => "Eq"@,
        TokV::Arrow => "Arrow"@,
        TokV::Iff => "Iff"@,
        TokV::And => "And"@,
        TokV::Or => "Or"@,
        TokV::Not => "Not"@,
        TokV::Forall => "Forall"@,
        TokV::Exists => "Exists"@,
        TokV::Dot => "Dot"@,
    }
}

/// The `Debug` text of an optional token, e.g. `Some(Ident("x"))` or `None`.
pub open spec fn debug_token(t: Option<TokV>) -> Seq<char> {
    match t {
        Some(x) => "Some("@ + tok_debug(x) + ")"@,
        None => "None"@,
    }
}

/// The message of each failure.
pub open spec fn failure_message(f: ParseFailure) -> Seq<char> {
    match f {
        ParseFailure::UnexpectedChar(c) => "unexpected character '"@ + seq![c] + "'"@,
        ParseFailure::Trailing(t) => "unexpected trailing input near token "@ + debug_token(t),
        ParseFailure::ExpectedAllAfterFor => "expected 'all' after 'for'"@,
        ParseFailure::ExpectedExistsAfterThere => "expected 'exists' after 'there'"@,
        ParseFailure::NoBoundVariables => "quantifier with no bound variables"@,
        ParseFailure::ExpectedThen => "expected 'then' to close an 'if'"@,
        ParseFailure::ExpectedRParen => "expected ')'"@,
        ParseFailure::ExpectedAtom(t) => "expected an atom, found "@ + debug_token(t),
        ParseFailure::ExpectedRelationClose => "expected ')' to close a relation's arguments"@,
        ParseFailure::ExpectedTerm(t) => "expected a term, found "@ + debug_token(t),
    }
}

/// The view of an optional token.
pub open spec fn opt_tok(t: Option<&Tok>) -> Option<TokV> {
    match t {
        Some(x) => Some(x@),
        None => None,
    }
}

/// Formats `Debug` of a string with `format!` (the quoted, escaped text); the text is
/// named, not stated.
#[verifier::external_body]
pub(crate) fn str_debug_text(s: &String) -> (r: String)
    ensures
        r@ == debug_str(s@),
{
    format!("{:?}", s)
}

fn tok_text(t: &Tok) -> (r: String)
    ensures
        r@ == tok_debug(t@),
{
    match t {
        Tok::Ident(s) => {
            let mut r = message_with("Ident(", str_debug_text(s));
            r.append(")");
            r
        },
        Tok::LParen => String::from_str("LParen"),
        Tok::RParen => String::from_str("RParen"),
        Tok::Comma => String::from_str("Comma"),
        Tok::Eq => String::from_str("Eq"),
        Tok::Arrow => String::from_str("Arrow"),
        Tok::Iff => String::from_str("Iff"),
        Tok::And => String::from_str("And"),
        Tok::Or => String::from_str("Or"),
        Tok::Not => String::from_str("Not"),
        Tok::Forall => String::from_str("Forall"),
        Tok::Exists => String::from_str("Exists"),
        Tok::Dot => String::from_str("Dot"),
    }
}

/// The `Debug` text of an optional token.
fn debug_text(t: Option<&Tok>) -> (r: String)
    ensures
        r@ == debug_token(opt_tok(t)),
{
    match t {
        Some(x) => {
            let mut r = message_with("Some(", tok_text(x));
            r.append(")");
            r
        },
        None => String::from_str("None"),
    }
}

/// Formats a character with `format!` (`Display` of a `char` writes the character itself).
#[verifier::external_body]
fn char_text(c: char) -> (r: String)
    ensures
        r@ == seq![c],
{
    format!("{}", c)
}

fn message_with(prefix: &str, rest: String) -> (r: String)
    ensures
        r@ == prefix@ + rest@,
{
    let mut r = String::from_str(prefix);
    r.append(rest.as_str());
    r
}

fn err_unexpected_char(c: char) -> (e: FormulaError)
    ensures
        e.message@ == failure_message(ParseFailure::UnexpectedChar(c)),
{
    let mut m = message_with("unexpected character '", char_text(c));
    m.append("'");
    FormulaError::new(m)
}

fn err_trailing(t: Option<&Tok>) -> (e: FormulaError)
    ensures
        e.message@ == failure_message(ParseFailure::Trailing(opt_tok(t))),
{
    FormulaError::new(message_with("unexpected trailing input near token ", debug_text(t)))
}

fn err_expected_atom(t: Option<&Tok>) -> (e: FormulaError)
    ensures
        e.message@ == failure_message(ParseFailure::ExpectedAtom(opt_tok(t))),
{
    FormulaError::new(message_with("expected an atom, found ", debug_text(t)))
}

fn err_expected_term(t: Option<&Tok>) -> (e: FormulaError)
    ensures
        e.message@ == failure_message(ParseFailure::ExpectedTerm(opt_tok(t))),
{
    FormulaError::new(message_with("expected a term, found ", debug_text(t)))
}

fn err_fixed(f: u8) -> (e: FormulaError)
    requires
        f < 6,
    ensures
        f == 0 ==> e.message@ == failure_message(ParseFailure::ExpectedAllAfterFor),
        f == 1 ==> e.message@ == failure_message(ParseFailure::ExpectedExistsAfterThere),
        f == 2 ==> e.message@ == failure_message(ParseFailure::NoBoundVariables),
        f == 3 ==> e.message@ == failure_message(ParseFailure::ExpectedThen),
        f == 4 ==> e.message@ == failure_message(ParseFailure::ExpectedRParen),
        f == 5 ==> e.message@ == failure_message(ParseFailure::ExpectedRelationClose),
{
    let m = if f == 0 {
        String::from_str("expected 'all' after 'for'")
    } else if f == 1 {
        String::from_str("expected 'exists' after 'there'")
    } else if f == 2 {
        String::from_str("quantifier with no bound variables")
    } else if f == 3 {
        String::from_str("expected 'then' to close an 'if'")
    } else if f == 4 {
        String::from_str("expected ')'")
    } else {
        String::from_str("expected ')' to close a relation's arguments")
    };
    FormulaError::new(m)
}

// ---------------------------------------------------------------------------
// The grammar
// ---------------------------------------------------------------------------

/// The token at `p`, if any.
pub open spec fn tok_at(ts: Seq<TokV>, p: nat) -> Option<TokV> {
    if p < ts.len() { Some(ts[p as int]) } else { None }
}

/// The token at `p` is `t`.
pub open spec fn is_tok(ts: Seq<TokV>, p: nat, t: TokV) -> bool {
    p < ts.len() && ts[p as int] == t
}

/// The token at `p` is an identifier whose lowercase form is `kw`.
pub open spec fn kw_at(ts: Seq<TokV>, p: nat, kw: Seq<char>) -> bool {
    p < ts.len() && match ts[p as int] {
        TokV::Ident(s) => lowercase(s) == kw,
        _ => false,
    }
}

/// A quantifier prefix starts at `p`: `∀`, `∃`, `forall`, `for`, `exists`, `there`, `some`.
pub open spec fn quant_start(ts: Seq<TokV>, p: nat) -> bool {
    is_tok(ts, p, TokV::Forall) || is_tok(ts, p, TokV::Exists) || kw_at(ts, p, "forall"@) || kw_at(ts, p, "for"@)
        || kw_at(ts, p, "exists"@) || kw_at(ts, p, "there"@) || kw_at(ts, p, "some"@)
}

/// A word that ends a quantifier's variable list (it starts the body).
pub open spec fn stops_vars(low: Seq<char>) -> bool {
    low == "if"@ || low == "not"@ || low == "true"@ || low == "false"@
}

/// The bound variables listed from `p`: identifiers up to the first non-identifier or body
/// keyword.
pub open spec fn bound_vars(ts: Seq<TokV>, p: nat) -> Seq<Seq<char>>
    decreases ts.len() - p,
{
    if p < ts.len() {
        match ts[p as int] {
            TokV::Ident(s) => if stops_vars(lowercase(s)) { Seq::empty() } else { seq![s] + bound_vars(ts, p + 1) },
            _ => Seq::empty(),
        }
    } else {
        Seq::empty()
    }
}

/// The bound variables occupy positions `p .. p + k` of the tokens.
pub proof fn lemma_bound_vars(ts: Seq<TokV>, p: nat)
    ensures
        bound_vars(ts, p).len() > 0 ==> p + bound_vars(ts, p).len() <= ts.len(),
        forall|i: int| 0 <= i < bound_vars(ts, p).len() ==> ts[p + i] == TokV::Ident(#[trigger] bound_vars(ts, p)[i]),
    decreases ts.len() - p,
{
    if p < ts.len() {
        lemma_bound_vars(ts, p + 1);
        let vs = bound_vars(ts, p);
        match ts[p as int] {
            TokV::Ident(s) => {
                if !stops_vars(lowercase(s)) {
                    assert forall|i: int| 0 <= i < vs.len() implies ts[p + i] == TokV::Ident(#[trigger] vs[i]) by {
                        if i > 0 {
                            assert(vs[i] == bound_vars(ts, p + 1)[i - 1]);
                        }
                    }
                }
            },
            _ => {},
        }
    }
}

/// The quantifier nest over `vars`, the first variable outermost.
pub open spec fn quantify(vars: Seq<Seq<char>>, body: Expr, universal: bool) -> Expr
    decreases vars.len(),
{
    if vars.len() == 0 {
        body
    } else if universal {
        Expr::ForAll { variable: vars[0], body: Box::new(quantify(vars.drop_first(), body, universal)) }
    } else {
        Expr::Exists { variable: vars[0], body: Box::new(quantify(vars.drop_first(), body, universal)) }
    }
}

/// A position that a sub-parse reached, kept within `pos ..= n` (positions only move forward).
pub open spec fn fwd(p: nat, pos: nat, n: nat) -> nat {
    if pos <= p <= n { p } else { pos }
}

/// An identifier leading with an uppercase letter or a digit is a constant, otherwise a
/// variable.
pub open spec fn ident_term(s: Seq<char>) -> Term {
    if s.len() > 0 && (uppercase_char(s[0]) || ('0' <= s[0] && s[0] <= '9')) {
        Term::Constant(s)
    } else {
        Term::Variable(s)
    }
}

/// A term: one identifier.
pub open spec fn p_term(ts: Seq<TokV>, q: nat) -> Result<(Term, nat), ParseFailure> {
    match tok_at(ts, q) {
        Some(TokV::Ident(s)) => Ok((ident_term(s), q + 1)),
        other => Err(ParseFailure::ExpectedTerm(other)),
    }
}

/// Comma-separated terms from `q`, appended to `acc`.
pub open spec fn p_args(ts: Seq<TokV>, q: nat, acc: Seq<Term>) -> Result<(Seq<Term>, nat), ParseFailure>
    decreases ts.len() - q,
{
    match p_term(ts, q) {
        Err(f) => Err(f),
        Ok((t, q1)) => if is_tok(ts, q1, TokV::Comma) { p_args(ts, q1 + 1, acc.push(t)) } else { Ok((acc.push(t), q1)) },
    }
}

/// What follows an identifier `name` read at `p - 1`: `true`/`false`, a relation application,
/// an identity, or a propositional atom.
pub open spec fn atom_after(ts: Seq<TokV>, p: nat, name: Seq<char>) -> Result<(Expr, nat), ParseFailure> {
    let low = lowercase(name);
    if low == "true"@ {
        Ok((Expr::Atom("True"@), p))
    } else if low == "false"@ {
        Ok((Expr::Atom("False"@), p))
    } else if is_tok(ts, p, TokV::LParen) {
        if is_tok(ts, p + 1, TokV::RParen) {
            Ok((Expr::Predicate { name, args: Seq::empty(), world: None }, p + 2))
        } else {
            match p_args(ts, p + 1, Seq::empty()) {
                Err(f) => Err(f),
                Ok((args, q)) => if is_tok(ts, q, TokV::RParen) {
                    Ok((Expr::Predicate { name, args, world: None }, q + 1))
                } else {
                    Err(ParseFailure::ExpectedRelationClose)
                },
            }
        }
    } else if is_tok(ts, p, TokV::Eq) {
        match p_term(ts, p + 1) {
            Err(f) => Err(f),
            Ok((t, q)) => Ok((Expr::Identity(ident_term(name), t), q)),
        }
    } else {
        Ok((Expr::Atom(name), p))
    }
}

/// `formula := quantifier | iff`.
pub open spec fn p_formula(ts: Seq<TokV>, pos: nat) -> Result<(Expr, nat), ParseFailure>
    decreases ts.len() - pos, 10nat,
{
    if quant_start(ts, pos) { p_quant(ts, pos) } else { p_iff(ts, pos) }
}

/// A quantifier prefix and its body.
pub open spec fn p_quant(ts: Seq<TokV>, pos: nat) -> Result<(Expr, nat), ParseFailure>
    decreases ts.len() - pos, 1nat,
{
    if is_tok(ts, pos, TokV::Forall) {
        p_finish(ts, pos + 1, true)
    } else if is_tok(ts, pos, TokV::Exists) {
        p_finish(ts, pos + 1, false)
    } else if kw_at(ts, pos, "forall"@) {
        p_finish(ts, pos + 1, true)
    } else if kw_at(ts, pos, "for"@) {
        if kw_at(ts, pos + 1, "all"@) { p_finish(ts, pos + 2, true) } else { Err(ParseFailure::ExpectedAllAfterFor) }
    } else if kw_at(ts, pos, "exists"@) {
        p_finish(ts, pos + 1, false)
    } else if kw_at(ts, pos, "there"@) {
        if kw_at(ts, pos + 1, "exists"@) || kw_at(ts, pos + 1, "is"@) || kw_at(ts, pos + 1, "are"@) {
            p_finish(ts, pos + 2, false)
        } else {
            Err(ParseFailure::ExpectedExistsAfterThere)
        }
    } else if kw_at(ts, pos, "some"@) {
        p_finish(ts, pos + 1, false)
    } else {
        Err(ParseFailure::NoBoundVariables)
    }
}

/// After a quantifier keyword: the bound variables, an optional `,` or `.`, then the body.
pub open spec fn p_finish(ts: Seq<TokV>, pos: nat, universal: bool) -> Result<(Expr, nat), ParseFailure>
    decreases ts.len() - pos, 0nat,
{
    let vars = bound_vars(ts, pos);
    if vars.len() == 0 {
        Err(ParseFailure::NoBoundVariables)
    } else {
        let q = pos + vars.len();
        let q2 = if is_tok(ts, q, TokV::Comma) || is_tok(ts, q, TokV::Dot) { q + 1 } else { q };
        proof {
            lemma_bound_vars(ts, pos);
        }
        match p_formula(ts, q2) {
            Err(f) => Err(f),
            Ok((body, p3)) => Ok((quantify(vars, body, universal), p3)),
        }
    }
}

/// `iff := implication (('iff' | '<->') implication)?`.
pub open spec fn p_iff(ts: Seq<TokV>, pos: nat) -> Result<(Expr, nat), ParseFailure>
    decreases ts.len() - pos, 9nat,
{
    match p_impl(ts, pos) {
        Err(f) => Err(f),
        Ok((l, p1)) => {
            let p1 = fwd(p1, pos, ts.len());
            if is_tok(ts, p1, TokV::Iff) || kw_at(ts, p1, "iff"@) {
                match p_impl(ts, p1 + 1) {
                    Err(f) => Err(f),
                    Ok((r, p2)) => Ok((Expr::Iff(Box::new(l), Box::new(r)), p2)),
                }
            } else {
                Ok((l, p1))
            }
        },
    }
}

/// `implication := 'if' disjunction 'then' implication | disjunction (('implies'|'->')
/// implication)?`, right-associative.
pub open spec fn p_impl(ts: Seq<TokV>, pos: nat) -> Result<(Expr, nat), ParseFailure>
    decreases ts.len() - pos, 8nat,
{
    if kw_at(ts, pos, "if"@) {
        match p_disj(ts, pos + 1) {
            Err(f) => Err(f),
            Ok((c, p1)) => {
                let p1 = fwd(p1, pos + 1, ts.len());
                if !kw_at(ts, p1, "then"@) {
                    Err(ParseFailure::ExpectedThen)
                } else {
                    match p_impl(ts, p1 + 1) {
                        Err(f) => Err(f),
                        Ok((q, p2)) => Ok((Expr::Implies(Box::new(c), Box::new(q)), p2)),
                    }
                }
            },
        }
    } else {
        match p_disj(ts, pos) {
            Err(f) => Err(f),
            Ok((l, p1)) => {
                let p1 = fwd(p1, pos, ts.len());
                if is_tok(ts, p1, TokV::Arrow) || kw_at(ts, p1, "implies"@) {
                    match p_impl(ts, p1 + 1) {
                        Err(f) => Err(f),
                        Ok((r, p2)) => Ok((Expr::Implies(Box::new(l), Box::new(r)), p2)),
                    }
                } else {
                    Ok((l, p1))
                }
            },
        }
    }
}

/// `disjunction := conjunction (('or'|'∨') conjunction)*`.
pub open spec fn p_disj(ts: Seq<TokV>, pos: nat) -> Result<(Expr, nat), ParseFailure>
    decreases ts.len() - pos, 7nat,
{
    match p_conj(ts, pos) {
        Err(f) => Err(f),
        Ok((l, p1)) => p_disj_rest(ts, fwd(p1, pos, ts.len()), l),
    }
}

/// The remaining disjuncts, folded to the left onto `left`.
pub open spec fn p_disj_rest(ts: Seq<TokV>, pos: nat, left: Expr) -> Result<(Expr, nat), ParseFailure>
    decreases ts.len() - pos, 6nat,
{
    if is_tok(ts, pos, TokV::Or) || kw_at(ts, pos, "or"@) {
        match p_conj(ts, pos + 1) {
            Err(f) => Err(f),
            Ok((r, p2)) => p_disj_rest(ts, fwd(p2, pos + 1, ts.len()), Expr::Or(Box::new(left), Box::new(r))),
        }
    } else {
        Ok((left, pos))
    }
}

/// `conjunction := negation (('and'|'∧') negation)*`.
pub open spec fn p_conj(ts: Seq<TokV>, pos: nat) -> Result<(Expr, nat), ParseFailure>
    decreases ts.len() - pos, 5nat,
{
    match p_neg(ts, pos) {
        Err(f) => Err(f),
        Ok((l, p1)) => p_conj_rest(ts, fwd(p1, pos, ts.len()), l),
    }
}

/// The remaining conjuncts, folded to the left onto `left`.
pub open spec fn p_conj_rest(ts: Seq<TokV>, pos: nat, left: Expr) -> Result<(Expr, nat), ParseFailure>
    decreases ts.len() - pos, 4nat,
{
    if is_tok(ts, pos, TokV::And) || kw_at(ts, pos, "and"@) {
        match p_neg(ts, pos + 1) {
            Err(f) => Err(f),
            Ok((r, p2)) => p_conj_rest(ts, fwd(p2, pos + 1, ts.len()), Expr::And(Box::new(left), Box::new(r))),
        }
    } else {
        Ok((left, pos))
    }
}

/// `negation := ('not'|'¬') negation | atom`.
pub open spec fn p_neg(ts: Seq<TokV>, pos: nat) -> Result<(Expr, nat), ParseFailure>
    decreases ts.len() - pos, 3nat,
{
    if is_tok(ts, pos, TokV::Not) || kw_at(ts, pos, "not"@) {
        match p_neg(ts, pos + 1) {
            Err(f) => Err(f),
            Ok((x, p1)) => Ok((Expr::Not(Box::new(x)), p1)),
        }
    } else {
        p_atom(ts, pos)
    }
}

/// `atom := quantifier | '(' formula ')' | 'true' | 'false' | ident '(' terms ')' |
/// term '=' term | ident`.
pub open spec fn p_atom(ts: Seq<TokV>, pos: nat) -> Result<(Expr, nat), ParseFailure>
    decreases ts.len() - pos, 2nat,
{
    if quant_start(ts, pos) {
        p_quant(ts, pos)
    } else if is_tok(ts, pos, TokV::LParen) {
        match p_formula(ts, pos + 1) {
            Err(f) => Err(f),
            Ok((e, p1)) => if is_tok(ts, p1, TokV::RParen) { Ok((e, p1 + 1)) } else { Err(ParseFailure::ExpectedRParen) },
        }
    } else {
        match tok_at(ts, pos) {
            Some(TokV::Ident(name)) => atom_after(ts, pos + 1, name),
            other => Err(ParseFailure::ExpectedAtom(other)),
        }
    }
}

/// The token is an identifier whose lowercase form is `kw`.
pub open spec fn is_kw(t: TokV, kw: Seq<char>) -> bool {
    match t {
        TokV::Ident(s) => lowercase(s) == kw,
        _ => false,
    }
}

/// The token can be a bound variable: an identifier that is no body keyword.
pub open spec fn var_tok(t: TokV) -> bool {
    match t {
        TokV::Ident(s) => !stops_vars(lowercase(s)),
        _ => false,
    }
}

/// A quantifier prefix ends just before position `j`: `∀`, `∃`, `forall`, `exists`, `some`,
/// `for all`, or `there` followed by `exists`, `is` or `are`.
pub open spec fn quant_ends_at(ts: Seq<TokV>, j: int) -> bool {
    &&& 1 <= j <= ts.len()
    &&& {
        ||| ts[j - 1] == TokV::Forall || ts[j - 1] == TokV::Exists
        ||| is_kw(ts[j - 1], "forall"@) || is_kw(ts[j - 1], "exists"@) || is_kw(ts[j - 1], "some"@)
        ||| j >= 2 && is_kw(ts[j - 1], "all"@) && is_kw(ts[j - 2], "for"@)
        ||| j >= 2 && (is_kw(ts[j - 1], "is"@) || is_kw(ts[j - 1], "are"@)) && is_kw(ts[j - 2], "there"@)
    }
}

/// The `.` at position `i` ends a quantifier's variable list: the tokens before it, back to the
/// end of a quantifier prefix, are variables, at least one.
pub open spec fn ends_var_list(ts: Seq<TokV>, i: int) -> bool {
    exists|j: int| 0 <= j < i && quant_ends_at(ts, j) && forall|k: int| j <= k < i ==> #[trigger] var_tok(ts[k])
}

/// The first `n` tokens with every `.` left out but those that end a variable list: elsewhere a
/// `.` is read as a space.
pub open spec fn kept_tokens(ts: Seq<TokV>, n: nat) -> Seq<TokV>
    decreases n,
{
    if n == 0 || n > ts.len() {
        Seq::empty()
    } else {
        let prev = kept_tokens(ts, (n - 1) as nat);
        if ts[n - 1] == TokV::Dot && !ends_var_list(ts, n - 1) {
            prev
        } else {
            prev.push(ts[n - 1])
        }
    }
}

/// A biconditional joins the implications on either side of its connective: where no
/// quantifier starts at `pos`, the implication there reads `l` and ends at an `iff` (or `↔`,
/// `<->`), and the implication after that connective reads `r`, the formula at `pos` is
/// `l ↔ r`, ending where `r` ends.
pub proof fn lemma_iff_joins_implications(ts: Seq<TokV>, pos: nat, l: Expr, p1: nat, r: Expr, p2: nat)
    requires
        !quant_start(ts, pos),
        p_impl(ts, pos) == Ok::<(Expr, nat), ParseFailure>((l, p1)),
        pos <= p1,
        is_tok(ts, p1, TokV::Iff) || kw_at(ts, p1, "iff"@),
        p_impl(ts, p1 + 1) == Ok::<(Expr, nat), ParseFailure>((r, p2)),
    ensures
        p_formula(ts, pos) == Ok::<(Expr, nat), ParseFailure>((Expr::Iff(Box::new(l), Box::new(r)), p2)),
{
    assert(p1 < ts.len());
    assert(fwd(p1, pos, ts.len()) == p1);
}

/// Without a biconditional connective after it, the implication at `pos` is the whole
/// formula there: a formula is a biconditional only when `iff` joins two implications.
pub proof fn lemma_no_iff_is_implication(ts: Seq<TokV>, pos: nat, l: Expr, p1: nat)
    requires
        !quant_start(ts, pos),
        p_impl(ts, pos) == Ok::<(Expr, nat), ParseFailure>((l, p1)),
        pos <= p1 <= ts.len(),
        !(is_tok(ts, p1, TokV::Iff) || kw_at(ts, p1, "iff"@)),
    ensures
        p_formula(ts, pos) == Ok::<(Expr, nat), ParseFailure>((l, p1)),
{
}

/// The whole text is a biconditional when its tokens are two implications joined by `iff`:
/// the parse is `l ↔ r`.
pub proof fn lemma_text_iff(input: Seq<char>, raw: Seq<TokV>, l: Expr, p1: nat, r: Expr)
    requires
        tokens_from(input, 0) == Ok::<Seq<TokV>, char>(raw),
        !quant_start(kept_tokens(raw, raw.len()), 0),
        p_impl(kept_tokens(raw, raw.len()), 0) == Ok::<(Expr, nat), ParseFailure>((l, p1)),
        is_tok(kept_tokens(raw, raw.len()), p1, TokV::Iff) || kw_at(kept_tokens(raw, raw.len()), p1, "iff"@),
        p_impl(kept_tokens(raw, raw.len()), p1 + 1) == Ok::<(Expr, nat), ParseFailure>((r, kept_tokens(raw, raw.len()).len())),
    ensures
        parse_spec(input) == Ok::<Expr, ParseFailure>(Expr::Iff(Box::new(l), Box::new(r))),
{
    lemma_iff_joins_implications(kept_tokens(raw, raw.len()), 0, l, p1, r, kept_tokens(raw, raw.len()).len());
}

/// The parse of the whole text: its tokens (a `.` that ends no variable list read as a space),
/// one formula, nothing left over.
pub open spec fn parse_spec(input: Seq<char>) -> Result<Expr, ParseFailure> {
    match tokens_from(input, 0) {
        Err(c) => Err(ParseFailure::UnexpectedChar(c)),
        Ok(raw) => {
            let ts = kept_tokens(raw, raw.len());
            match p_formula(ts, 0) {
                Err(f) => Err(f),
                Ok((e, p)) => if p != ts.len() { Err(ParseFailure::Trailing(tok_at(ts, p))) } else { Ok(e) },
            }
        },
    }
}

// ---------------------------------------------------------------------------
// The parser
// ---------------------------------------------------------------------------

/// A parse result agrees with the grammar: the same expression and end position (past `pos`),
/// or a failure with the grammar's message.
pub open spec fn agrees(r: Result<(ProofExpr, usize), FormulaError>, s: Result<(Expr, nat), ParseFailure>, pos: nat, n: nat) -> bool {
    match r {
        Ok((e, p)) => s == Ok::<(Expr, nat), ParseFailure>((e@, p as nat)) && pos < p <= n,
        Err(err) => match s {
            Ok(_) => false,
            Err(f) => err.message@ == failure_message(f),
        },
    }
}

/// A small code for each kind of token.
pub open spec fn tag(t: TokV) -> u8 {
    match t {
        TokV::Ident(_) => 0,
        TokV::LParen => 1,
        TokV::RParen => 2,
        TokV::Comma => 3,
        TokV::Eq => 4,
        TokV::Arrow => 5,
        TokV::Iff => 6,
        TokV::And => 7,
        TokV::Or => 8,
        TokV::Not => 9,
        TokV::Forall => 10,
        TokV::Exists => 11,
        TokV::Dot => 12,
    }
}

fn tag_at(toks: &Vec<Tok>, p: usize) -> (r: u8)
    ensures
        p < toks@.len() ==> r == tag(toks_view(toks@)[p as int]),
        p >= toks@.len() ==> r == 255,
{
    if p >= toks.len() {
        return 255;
    }
    match &toks[p] {
        Tok::Ident(_) => 0,
        Tok::LParen => 1,
        Tok::RParen => 2,
        Tok::Comma => 3,
        Tok::Eq => 4,
        Tok::Arrow => 5,
        Tok::Iff => 6,
        Tok::And => 7,
        Tok::Or => 8,
        Tok::Not => 9,
        Tok::Forall => 10,
        Tok::Exists => 11,
        Tok::Dot => 12,
    }
}

fn kw_exec(toks: &Vec<Tok>, p: usize, kw: &str) -> (r: bool)
    ensures
        r == kw_at(toks_view(toks@), p as nat, kw@),
{
    if p >= toks.len() {
        return false;
    }
    match &toks[p] {
        Tok::Ident(s) => {
            let low = to_lowercase(s);
            let k = String::from_str(kw);
            crate::expr::same_string(&low, &k)
        },
        _ => false,
    }
}

fn tok_ref(toks: &Vec<Tok>, p: usize) -> (r: Option<&Tok>)
    ensures
        opt_tok(r) == tok_at(toks_view(toks@), p as nat),
{
    if p < toks.len() {
        Some(&toks[p])
    } else {
        None
    }
}

fn starts_quantifier(toks: &Vec<Tok>, p: usize) -> (r: bool)
    ensures
        r == quant_start(toks_view(toks@), p as nat),
{
    let t = tag_at(toks, p);
    t == 10 || t == 11 || kw_exec(toks, p, "forall") || kw_exec(toks, p, "for") || kw_exec(toks, p, "exists")
        || kw_exec(toks, p, "there") || kw_exec(toks, p, "some")
}

fn ident_to_term(s: &String) -> (t: ProofTerm)
    ensures
        t@ == ident_term(s@),
{
    let text = s.as_str();
    let leads_constant = if text.unicode_len() > 0 {
        let c = text.get_char(0);
        is_uppercase(c) || ('0' <= c && c <= '9')
    } else {
        false
    };
    if leads_constant {
        ProofTerm::Constant(crate::expr::copy_string(s))
    } else {
        ProofTerm::Variable(crate::expr::copy_string(s))
    }
}

fn parse_term(toks: &Vec<Tok>, q: usize) -> (r: Result<(ProofTerm, usize), FormulaError>)
    ensures
        match r {
            Ok((t, q1)) => p_term(toks_view(toks@), q as nat) == Ok::<(Term, nat), ParseFailure>((t@, q1 as nat))
                && q1 == q + 1 && q1 <= toks@.len(),
            Err(err) => match p_term(toks_view(toks@), q as nat) {
                Ok(_) => false,
                Err(f) => err.message@ == failure_message(f),
            },
        },
{
    if q < toks.len() {
        match &toks[q] {
            Tok::Ident(s) => {
                return Ok((ident_to_term(s), q + 1));
            },
            _ => {},
        }
    }
    Err(err_expected_term(tok_ref(toks, q)))
}

/// Comma-separated terms from `q`.
fn parse_args(toks: &Vec<Tok>, start: usize) -> (r: Result<(Vec<ProofTerm>, usize), FormulaError>)
    requires
        start <= toks@.len(),
    ensures
        match r {
            Ok((args, q1)) => p_args(toks_view(toks@), start as nat, Seq::empty()) == Ok::<(Seq<Term>, nat),
                ParseFailure>((crate::expr::terms_view(args@), q1 as nat)) && start < q1 <= toks@.len(),
            Err(err) => match p_args(toks_view(toks@), start as nat, Seq::empty()) {
                Ok(_) => false,
                Err(f) => err.message@ == failure_message(f),
            },
        },
{
    let ghost ts = toks_view(toks@);
    let mut args: Vec<ProofTerm> = Vec::new();
    let ghost q0 = start as nat;
    let mut q = start;
    proof {
        assert(crate::expr::terms_view(args@) =~= Seq::<Term>::empty());
    }
    loop
        invariant
            ts == toks_view(toks@),
            start <= q <= toks@.len(),
            q0 == start,
            p_args(ts, q0, Seq::empty()) == p_args(ts, q as nat, crate::expr::terms_view(args@)),
        decreases toks@.len() - q,
    {
        match parse_term(toks, q) {
            Err(e) => {
                return Err(e);
            },
            Ok((t, q1)) => {
                let ghost acc = crate::expr::terms_view(args@);
                args.push(t);
                proof {
                    assert(crate::expr::terms_view(args@) =~= acc.push(t@));
                }
                if tag_at(toks, q1) == 3 {
                    assert(q1 < toks.len());
                    q = q1 + 1;
                } else {
                    return Ok((args, q1));
                }
            },
        }
    }
}

fn is_word(s: &String, w: &str) -> (r: bool)
    ensures
        r == (s@ == w@),
{
    let k = String::from_str(w);
    crate::expr::same_string(s, &k)
}

/// What follows an identifier `name` read just before `p`.
fn parse_after_ident(toks: &Vec<Tok>, p: usize, name: &String) -> (r: Result<(ProofExpr, usize), FormulaError>)
    requires
        1 <= p <= toks@.len(),
    ensures
        agrees(r, atom_after(toks_view(toks@), p as nat, name@), (p - 1) as nat, toks@.len()),
{
    let n = toks.len();
    let ghost ts = toks_view(toks@);
    let low = to_lowercase(name);
    if is_word(&low, "true") {
        return Ok((ProofExpr::Atom(String::from_str("True")), p));
    }
    if is_word(&low, "false") {
        return Ok((ProofExpr::Atom(String::from_str("False")), p));
    }
    if tag_at(toks, p) == 1 {
        if tag_at(toks, p + 1) == 2 {
            let e = ProofExpr::Predicate { name: crate::expr::copy_string(name), args: Vec::new(), world: None };
            proof {
                assert(crate::expr::terms_view(Seq::<ProofTerm>::empty()) =~= Seq::<Term>::empty());
            }
            return Ok((e, p + 2));
        }
        match parse_args(toks, p + 1) {
            Err(e) => {
                return Err(e);
            },
            Ok((args, q)) => {
                if tag_at(toks, q) == 2 {
                    let e = ProofExpr::Predicate { name: crate::expr::copy_string(name), args, world: None };
                    return Ok((e, q + 1));
                }
                return Err(err_fixed(5));
            },
        }
    }
    if tag_at(toks, p) == 4 {
        match parse_term(toks, p + 1) {
            Err(e) => {
                return Err(e);
            },
            Ok((t, q)) => {
                return Ok((ProofExpr::Identity(ident_to_term(name), t), q));
            },
        }
    }
    Ok((ProofExpr::Atom(crate::expr::copy_string(name)), p))
}

fn parse_formula_at(toks: &Vec<Tok>, pos: usize) -> (r: Result<(ProofExpr, usize), FormulaError>)
    requires
        pos <= toks@.len(),
    ensures
        agrees(r, p_formula(toks_view(toks@), pos as nat), pos as nat, toks@.len()),
    decreases toks@.len() - pos, 10nat,
{
    let n = toks.len();
    if starts_quantifier(toks, pos) {
        parse_quant(toks, pos)
    } else {
        parse_iff(toks, pos)
    }
}

#[verifier::rlimit(50)]
fn parse_quant(toks: &Vec<Tok>, pos: usize) -> (r: Result<(ProofExpr, usize), FormulaError>)
    requires
        pos <= toks@.len(),
    ensures
        agrees(r, p_quant(toks_view(toks@), pos as nat), pos as nat, toks@.len()),
    decreases toks@.len() - pos, 1nat,
{
    let n = toks.len();
    let t = tag_at(toks, pos);
    if t == 10 {
        parse_finish(toks, pos + 1, true)
    } else if t == 11 {
        parse_finish(toks, pos + 1, false)
    } else if kw_exec(toks, pos, "forall") {
        parse_finish(toks, pos + 1, true)
    } else if kw_exec(toks, pos, "for") {
        if kw_exec(toks, pos + 1, "all") {
            parse_finish(toks, pos + 2, true)
        } else {
            Err(err_fixed(0))
        }
    } else if kw_exec(toks, pos, "exists") {
        parse_finish(toks, pos + 1, false)
    } else if kw_exec(toks, pos, "there") {
        if kw_exec(toks, pos + 1, "exists") || kw_exec(toks, pos + 1, "is") || kw_exec(toks, pos + 1, "are") {
            parse_finish(toks, pos + 2, false)
        } else {
            Err(err_fixed(1))
        }
    } else if kw_exec(toks, pos, "some") {
        parse_finish(toks, pos + 1, false)
    } else {
        Err(err_fixed(2))
    }
}

/// The names as sequences.
pub open spec fn names_view(vs: Seq<String>) -> Seq<Seq<char>> {
    Seq::new(vs.len(), |i: int| vs[i]@)
}

#[verifier::rlimit(50)]
fn parse_finish(toks: &Vec<Tok>, pos: usize, universal: bool) -> (r: Result<(ProofExpr, usize), FormulaError>)
    requires
        1 <= pos <= toks@.len(),
    ensures
        agrees(r, p_finish(toks_view(toks@), pos as nat, universal), (pos - 1) as nat, toks@.len()),
    decreases toks@.len() - pos, 0nat,
{
    let n = toks.len();
    let ghost ts = toks_view(toks@);
    let mut vars: Vec<String> = Vec::new();
    let mut p = pos;
    proof {
        assert(names_view(vars@) + bound_vars(ts, p as nat) =~= bound_vars(ts, pos as nat));
    }
    loop
        invariant
            ts == toks_view(toks@),
            pos <= p <= toks@.len(),
            p == pos + vars@.len(),
            names_view(vars@) + bound_vars(ts, p as nat) == bound_vars(ts, pos as nat),
        ensures
            pos <= p <= toks@.len(),
            p == pos + vars@.len(),
            names_view(vars@) == bound_vars(ts, pos as nat),
        decreases toks@.len() - p,
    {
        if p >= toks.len() {
            proof {
                assert(names_view(vars@) + Seq::<Seq<char>>::empty() =~= names_view(vars@));
            }
            break;
        }
        let stop = match &toks[p] {
            Tok::Ident(s) => {
                let low = to_lowercase(s);
                if is_word(&low, "if") || is_word(&low, "not") || is_word(&low, "true") || is_word(&low, "false") {
                    true
                } else {
                    let ghost before = names_view(vars@);
                    vars.push(crate::expr::copy_string(s));
                    proof {
                        assert(names_view(vars@) =~= before.push(s@));
                        assert(bound_vars(ts, p as nat) == seq![s@] + bound_vars(ts, (p + 1) as nat));
                        assert(before + (seq![s@] + bound_vars(ts, (p + 1) as nat)) =~= before.push(s@) + bound_vars(ts,
                            (p + 1) as nat));
                    }
                    false
                }
            },
            _ => true,
        };
        if stop {
            proof {
                assert(bound_vars(ts, p as nat) =~= Seq::<Seq<char>>::empty());
                assert(names_view(vars@) + Seq::<Seq<char>>::empty() =~= names_view(vars@));
            }
            break;
        }
        p += 1;
    }
    if vars.len() == 0 {
        return Err(err_fixed(2));
    }
    let sep = tag_at(toks, p);
    let q = if sep == 3 || sep == 12 { p + 1 } else { p };
    proof {
        lemma_bound_vars(ts, pos as nat);
    }
    match parse_formula_at(toks, q) {
        Err(e) => Err(e),
        Ok((body, p3)) => {
            let ghost bv = body@;
            let mut acc = body;
            let mut i = vars.len();
            proof {
                assert(names_view(vars@).subrange(i as int, vars@.len() as int) =~= Seq::<Seq<char>>::empty());
            }
            while i > 0
                invariant
                    i <= vars@.len(),
                    acc@ == quantify(names_view(vars@).subrange(i as int, vars@.len() as int), bv, universal),
                decreases i,
            {
                i -= 1;
                let v = crate::expr::copy_string(&vars[i]);
                let ghost inner = acc@;
                proof {
                    let sub = names_view(vars@).subrange(i as int, vars@.len() as int);
                    assert(sub.drop_first() =~= names_view(vars@).subrange(i + 1, vars@.len() as int));
                    assert(sub[0] == v@);
                }
                if universal {
                    acc = ProofExpr::ForAll { variable: v, body: Box::new(acc) };
                } else {
                    acc = ProofExpr::Exists { variable: v, body: Box::new(acc) };
                }
            }
            proof {
                assert(names_view(vars@).subrange(0, vars@.len() as int) =~= names_view(vars@));
            }
            Ok((acc, p3))
        },
    }
}

#[verifier::rlimit(50)]
fn parse_iff(toks: &Vec<Tok>, pos: usize) -> (r: Result<(ProofExpr, usize), FormulaError>)
    requires
        pos <= toks@.len(),
    ensures
        agrees(r, p_iff(toks_view(toks@), pos as nat), pos as nat, toks@.len()),
    decreases toks@.len() - pos, 9nat,
{
    let n = toks.len();
    let ghost ts = toks_view(toks@);
    match parse_impl(toks, pos) {
        Err(e) => Err(e),
        Ok((l, p1)) => {
            let ghost lv = l@;
            proof {
                assert(p_impl(ts, pos as nat) == Ok::<(Expr, nat), ParseFailure>((lv, p1 as nat)));
                assert(fwd(p1 as nat, pos as nat, ts.len()) == p1);
            }
            if tag_at(toks, p1) == 6 || kw_exec(toks, p1, "iff") {
                proof {
                    assert(is_tok(ts, p1 as nat, TokV::Iff) || kw_at(ts, p1 as nat, "iff"@));
                }
                match parse_impl(toks, p1 + 1) {
                    Err(e) => Err(e),
                    Ok((r, p2)) => {
                        let ghost rv = r@;
                        let e = ProofExpr::Iff(Box::new(l), Box::new(r));
                        proof {
                            assert(e@ == Expr::Iff(Box::new(lv), Box::new(rv)));
                        }
                        Ok((e, p2))
                    },
                }
            } else {
                proof {
                    assert(!(is_tok(ts, p1 as nat, TokV::Iff) || kw_at(ts, p1 as nat, "iff"@)));
                }
                Ok((l, p1))
            }
        },
    }
}

#[verifier::rlimit(50)]
fn parse_impl(toks: &Vec<Tok>, pos: usize) -> (r: Result<(ProofExpr, usize), FormulaError>)
    requires
        pos <= toks@.len(),
    ensures
        agrees(r, p_impl(toks_view(toks@), pos as nat), pos as nat, toks@.len()),
    decreases toks@.len() - pos, 8nat,
{
    let n = toks.len();
    if kw_exec(toks, pos, "if") {
        match parse_disj(toks, pos + 1) {
            Err(e) => Err(e),
            Ok((c, p1)) => {
                if !kw_exec(toks, p1, "then") {
                    Err(err_fixed(3))
                } else {
                    match parse_impl(toks, p1 + 1) {
                        Err(e) => Err(e),
                        Ok((q, p2)) => Ok((ProofExpr::Implies(Box::new(c), Box::new(q)), p2)),
                    }
                }
            },
        }
    } else {
        match parse_disj(toks, pos) {
            Err(e) => Err(e),
            Ok((l, p1)) => {
                if tag_at(toks, p1) == 5 || kw_exec(toks, p1, "implies") {
                    match parse_impl(toks, p1 + 1) {
                        Err(e) => Err(e),
                        Ok((r, p2)) => Ok((ProofExpr::Implies(Box::new(l), Box::new(r)), p2)),
                    }
                } else {
                    Ok((l, p1))
                }
            },
        }
    }
}

fn parse_disj(toks: &Vec<Tok>, pos: usize) -> (r: Result<(ProofExpr, usize), FormulaError>)
    requires
        pos <= toks@.len(),
    ensures
        agrees(r, p_disj(toks_view(toks@), pos as nat), pos as nat, toks@.len()),
    decreases toks@.len() - pos, 7nat,
{
    let n = toks.len();
    match parse_conj(toks, pos) {
        Err(e) => Err(e),
        Ok((l, p1)) => parse_disj_rest(toks, p1, l),
    }
}

fn parse_disj_rest(toks: &Vec<Tok>, pos: usize, left: ProofExpr) -> (r: Result<(ProofExpr, usize), FormulaError>)
    requires
        1 <= pos <= toks@.len(),
    ensures
        agrees(r, p_disj_rest(toks_view(toks@), pos as nat, left@), (pos - 1) as nat, toks@.len()),
    decreases toks@.len() - pos, 6nat,
{
    let n = toks.len();
    if tag_at(toks, pos) == 8 || kw_exec(toks, pos, "or") {
        match parse_conj(toks, pos + 1) {
            Err(e) => Err(e),
            Ok((r, p2)) => parse_disj_rest(toks, p2, ProofExpr::Or(Box::new(left), Box::new(r))),
        }
    } else {
        Ok((left, pos))
    }
}

fn parse_conj(toks: &Vec<Tok>, pos: usize) -> (r: Result<(ProofExpr, usize), FormulaError>)
    requires
        pos <= toks@.len(),
    ensures
        agrees(r, p_conj(toks_view(toks@), pos as nat), pos as nat, toks@.len()),
    decreases toks@.len() - pos, 5nat,
{
    let n = toks.len();
    match parse_neg(toks, pos) {
        Err(e) => Err(e),
        Ok((l, p1)) => parse_conj_rest(toks, p1, l),
    }
}

fn parse_conj_rest(toks: &Vec<Tok>, pos: usize, left: ProofExpr) -> (r: Result<(ProofExpr, usize), FormulaError>)
    requires
        1 <= pos <= toks@.len(),
    ensures
        agrees(r, p_conj_rest(toks_view(toks@), pos as nat, left@), (pos - 1) as nat, toks@.len()),
    decreases toks@.len() - pos, 4nat,
{
    let n = toks.len();
    if tag_at(toks, pos) == 7 || kw_exec(toks, pos, "and") {
        match parse_neg(toks, pos + 1) {
            Err(e) => Err(e),
            Ok((r, p2)) => parse_conj_rest(toks, p2, ProofExpr::And(Box::new(left), Box::new(r))),
        }
    } else {
        Ok((left, pos))
    }
}

fn parse_neg(toks: &Vec<Tok>, pos: usize) -> (r: Result<(ProofExpr, usize), FormulaError>)
    requires
        pos <= toks@.len(),
    ensures
        agrees(r, p_neg(toks_view(toks@), pos as nat), pos as nat, toks@.len()),
    decreases toks@.len() - pos, 3nat,
{
    let n = toks.len();
    if tag_at(toks, pos) == 9 || kw_exec(toks, pos, "not") {
        match parse_neg(toks, pos + 1) {
            Err(e) => Err(e),
            Ok((x, p1)) => Ok((ProofExpr::Not(Box::new(x)), p1)),
        }
    } else {
        parse_atom(toks, pos)
    }
}

#[verifier::rlimit(50)]
fn parse_atom(toks: &Vec<Tok>, pos: usize) -> (r: Result<(ProofExpr, usize), FormulaError>)
    requires
        pos <= toks@.len(),
    ensures
        agrees(r, p_atom(toks_view(toks@), pos as nat), pos as nat, toks@.len()),
    decreases toks@.len() - pos, 2nat,
{
    let n = toks.len();
    if starts_quantifier(toks, pos) {
        return parse_quant(toks, pos);
    }
    if tag_at(toks, pos) == 1 {
        match parse_formula_at(toks, pos + 1) {
            Err(e) => {
                return Err(e);
            },
            Ok((e, p1)) => {
                if tag_at(toks, p1) == 2 {
                    return Ok((e, p1 + 1));
                }
                return Err(err_fixed(4));
            },
        }
    }
    if pos < toks.len() {
        match &toks[pos] {
            Tok::Ident(name) => {
                return parse_after_ident(toks, pos + 1, name);
            },
            _ => {},
        }
    }
    Err(err_expected_atom(tok_ref(toks, pos)))
}

/// Parse formal first-order-logic surface text into a [`ProofExpr`]. The whole text must be
/// one formula; anything else is a [`FormulaError`].
pub fn parse_formula(input: &str) -> (r: Result<ProofExpr, FormulaError>)
    ensures
        match r {
            Ok(e) => parse_spec(input@) == Ok::<Expr, ParseFailure>(e@),
            Err(err) => match parse_spec(input@) {
                Ok(_) => false,
                Err(f) => err.message@ == failure_message(f),
            },
        },
{
    let raw = match tokenize(input) {
        Ok(ts) => ts,
        Err(c) => {
            return Err(err_unexpected_char(c));
        },
    };
    let toks = keep_tokens(&raw);
    match parse_formula_at(&toks, 0) {
        Err(e) => Err(e),
        Ok((expr, p)) => {
            if p != toks.len() {
                Err(err_trailing(tok_ref(&toks, p)))
            } else {
                Ok(expr)
            }
        },
    }
}

fn copy_tok(t: &Tok) -> (r: Tok)
    ensures
        r@ == t@,
{
    match t {
        Tok::Ident(s) => Tok::Ident(crate::expr::copy_string(s)),
        Tok::LParen => Tok::LParen,
        Tok::RParen => Tok::RParen,
        Tok::Comma => Tok::Comma,
        Tok::Eq => Tok::Eq,
        Tok::Arrow => Tok::Arrow,
        Tok::Iff => Tok::Iff,
        Tok::And => Tok::And,
        Tok::Or => Tok::Or,
        Tok::Not => Tok::Not,
        Tok::Forall => Tok::Forall,
        Tok::Exists => Tok::Exists,
        Tok::Dot => Tok::Dot,
    }
}

fn var_tok_at(toks: &Vec<Tok>, p: usize) -> (r: bool)
    requires
        p < toks@.len(),
    ensures
        r == var_tok(toks_view(toks@)[p as int]),
{
    match &toks[p] {
        Tok::Ident(s) => {
            let low = to_lowercase(s);
            !(is_word(&low, "if") || is_word(&low, "not") || is_word(&low, "true") || is_word(&low, "false"))
        },
        _ => false,
    }
}

fn quant_ends_exec(toks: &Vec<Tok>, j: usize) -> (r: bool)
    requires
        j <= toks@.len(),
    ensures
        r == quant_ends_at(toks_view(toks@), j as int),
{
    if j < 1 {
        return false;
    }
    let t = tag_at(toks, j - 1);
    if t == 10 || t == 11 || kw_exec(toks, j - 1, "forall") || kw_exec(toks, j - 1, "exists") || kw_exec(toks, j - 1, "some") {
        return true;
    }
    if j >= 2 && kw_exec(toks, j - 1, "all") && kw_exec(toks, j - 2, "for") {
        return true;
    }
    j >= 2 && (kw_exec(toks, j - 1, "is") || kw_exec(toks, j - 1, "are")) && kw_exec(toks, j - 2, "there")
}

fn ends_var_list_exec(toks: &Vec<Tok>, i: usize) -> (r: bool)
    requires
        i <= toks@.len(),
    ensures
        r == ends_var_list(toks_view(toks@), i as int),
{
    let ghost ts = toks_view(toks@);
    let mut k = i;
    while k > 0 && var_tok_at(toks, k - 1)
        invariant
            ts == toks_view(toks@),
            k <= i <= toks@.len(),
            forall|m: int| k <= m < i ==> #[trigger] var_tok(ts[m]),
            forall|j: int| k <= j < i ==> !quant_ends_at(ts, j),
        decreases k,
    {
        k -= 1;
        if quant_ends_exec(toks, k) {
            proof {
                if k < i {
                    assert(forall|m: int| k <= m < i ==> #[trigger] var_tok(ts[m]));
                } else {
                    assert(k == i);
                }
            }
            if k < i {
                return true;
            }
        }
    }
    proof {
        assert forall|j: int| 0 <= j < i && quant_ends_at(ts, j) implies !(forall|m: int| j <= m < i ==> #[trigger] var_tok(ts[m])) by {
            assert(j < k);
            assert(k > 0 && !var_tok(ts[k - 1]));
        }
    }
    false
}

/// The tokens with every `.` that ends no variable list left out.
fn keep_tokens(raw: &Vec<Tok>) -> (r: Vec<Tok>)
    ensures
        toks_view(r@) == kept_tokens(toks_view(raw@), raw@.len()),
{
    let ghost ts = toks_view(raw@);
    let mut out: Vec<Tok> = Vec::new();
    let mut i: usize = 0;
    while i < raw.len()
        invariant
            ts == toks_view(raw@),
            i <= raw@.len(),
            toks_view(out@) == kept_tokens(ts, i as nat),
        decreases raw@.len() - i,
    {
        let drop = tag_at(raw, i) == 12 && !ends_var_list_exec(raw, i);
        let ghost before = toks_view(out@);
        if !drop {
            let t = copy_tok(&raw[i]);
            out.push(t);
            proof {
                assert(toks_view(out@) =~= before.push(ts[i as int]));
            }
        }
        i += 1;
    }
    out
}

} // verus!
