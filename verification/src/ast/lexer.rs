use vstd::prelude::*;
use vstd::string::StrSliceExecFns;

use crate::compiler::str_store::{
    interned, lemma_interned_keeps_index, lemma_interned_prefix, lemma_seq_prefix_trans, MStr, StrStore,
};
use crate::index_vec::Indexer;
use crate::unicode::{
    alphanumeric, char_is_alphanumeric, char_is_numeric, char_is_whitespace, char_len_utf8,
    is_ascii_digit, is_white_space, numeric, str_equal, utf8_len, utf8_width,
};

verus! {

/// The kind of a token.
#[derive(Debug, Clone, Copy, PartialEq, Eq, Hash, Structural)]
pub enum Ty {
    Identifier,
    Int,
    Float,
    TrueKeyword,
    FalseKeyword,
    FnKeyword,
    IfKeyword,
    LoopKeyword,
    BreakKeyword,
    TypeKeyword,
    ModKeyword,
    UseKeyword,
    InKeyword,
    ReturnKeyword,
    Comma,
    OpenParen,
    CloseParen,
    OpenBrace,
    CloseBrace,
    RangeOperator,
    ModuleOperator,
    Plus,
    Minus,
    Multiply,
    Divide,
    Equal,
    EqualEqual,
    LessThan,
    Semicolon,
    Eof,
    Unknown,
}

/// A byte offset into the source, kept in 32 bits.
#[derive(Debug, Clone, Copy, PartialEq, Eq, Hash, Structural)]
pub struct Pos(u32);

impl Pos {
    /// The offset, in bytes.
    pub closed spec fn offset(&self) -> nat {
        self.0 as nat
    }

    /// The position of a byte offset; as with `as u32`, an offset beyond `u32::MAX` wraps.
    pub fn from(v: usize) -> (r: Pos)
        ensures
            r.offset() == (v as u32) as nat,
    {
        Pos(v as u32)
    }
}

/// A token: its kind, where it starts (or, for punctuation, where it ends) and its interned text.
#[derive(Clone, Copy)]
pub struct Token {
    pub ty: Ty,
    pub pos: Pos,
    pub lexeme: MStr,
}

/// What the lexer finds at a place of the source: the token's kind, its byte position, its text
/// and the character index just after it.
pub ghost struct LexedToken {
    pub ty: Ty,
    pub pos: nat,
    pub text: Seq<char>,
    pub end: nat,
}

/// `t` is the token `lt`, its text interned in `store`.
pub open spec fn token_matches(t: Token, lt: LexedToken, store: Seq<Seq<char>>) -> bool {
    &&& t.ty == lt.ty
    &&& t.pos.offset() == (lt.pos as u32) as nat
    &&& store.contains(lt.text)
    &&& t.lexeme.id() == (store.index_of(lt.text) as u32) as nat
    &&& t.lexeme.id() < store.len()
}

/// `t` is a token of kind `ty` at `pos` with text `text`, made while interning `text` moved the
/// store from `before` to `after`.
pub open spec fn made_token(
    t: Token,
    ty: Ty,
    pos: nat,
    text: Seq<char>,
    before: Seq<Seq<char>>,
    after: Seq<Seq<char>>,
) -> bool {
    &&& after == interned(before, text)
    &&& after.contains(text)
    &&& t.ty == ty
    &&& t.pos.offset() == (pos as u32) as nat
    &&& t.lexeme.id() == (after.index_of(text) as u32) as nat
    &&& t.lexeme.id() < after.len()
}

/// The byte offset of the character at index `i`.
pub open spec fn byte_offset(src: Seq<char>, i: nat) -> nat {
    utf8_len(src.take(i as int))
}

/// The kinds after which a line may end a statement.
pub open spec fn can_end_statement(ty: Ty) -> bool {
    ||| ty == Ty::Identifier
    ||| ty == Ty::Int
    ||| ty == Ty::Float
    ||| ty == Ty::TrueKeyword
    ||| ty == Ty::FalseKeyword
    ||| ty == Ty::BreakKeyword
    ||| ty == Ty::CloseBrace
    ||| ty == Ty::CloseParen
}

/// The kinds that start a declaration.
pub open spec fn is_decl_keyword(ty: Ty) -> bool {
    ||| ty == Ty::FnKeyword
    ||| ty == Ty::UseKeyword
    ||| ty == Ty::ModKeyword
    ||| ty == Ty::TypeKeyword
}

/// The kind of a word: a keyword or an identifier.
pub open spec fn keyword_ty(w: Seq<char>) -> Ty {
    if w == "fn"@ {
        Ty::FnKeyword
    } else if w == "true"@ {
        Ty::TrueKeyword
    } else if w == "false"@ {
        Ty::FalseKeyword
    } else if w == "if"@ {
        Ty::IfKeyword
    } else if w == "loop"@ {
        Ty::LoopKeyword
    } else if w == "break"@ {
        Ty::BreakKeyword
    } else if w == "type"@ {
        Ty::TypeKeyword
    } else if w == "in"@ {
        Ty::InKeyword
    } else if w == "mod"@ {
        Ty::ModKeyword
    } else if w == "use"@ {
        Ty::UseKeyword
    } else if w == "return"@ {
        Ty::ReturnKeyword
    } else {
        Ty::Identifier
    }
}

/// The kind of a one-character token.
pub open spec fn single_char_ty(c: char) -> Option<Ty> {
    if c == '(' {
        Some(Ty::OpenParen)
    } else if c == ')' {
        Some(Ty::CloseParen)
    } else if c == '{' {
        Some(Ty::OpenBrace)
    } else if c == '}' {
        Some(Ty::CloseBrace)
    } else if c == '+' {
        Some(Ty::Plus)
    } else if c == '-' {
        Some(Ty::Minus)
    } else if c == '*' {
        Some(Ty::Multiply)
    } else if c == '/' {
        Some(Ty::Divide)
    } else if c == '<' {
        Some(Ty::LessThan)
    } else if c == ';' {
        Some(Ty::Semicolon)
    } else if c == ',' {
        Some(Ty::Comma)
    } else {
        None
    }
}

/// The fixed text of a punctuation token (and the empty text of the end of input).
pub open spec fn punct_text(ty: Ty) -> Seq<char> {
    match ty {
        Ty::OpenParen => "("@,
        Ty::CloseParen => ")"@,
        Ty::OpenBrace => "{"@,
        Ty::CloseBrace => "}"@,
        Ty::Plus => "+"@,
        Ty::Minus => "-"@,
        Ty::Multiply => "*"@,
        Ty::Divide => "/"@,
        Ty::LessThan => "<"@,
        Ty::Semicolon => ";"@,
        Ty::Comma => ","@,
        Ty::Equal => "="@,
        Ty::EqualEqual => "=="@,
        Ty::RangeOperator => ".."@,
        Ty::ModuleOperator => "::"@,
        _ => ""@,
    }
}

/// The characters that stop an unknown token.
pub open spec fn ends_unknown(c: char) -> bool {
    ||| is_white_space(c)
    ||| c == '('
    ||| c == ')'
    ||| c == '{'
    ||| c == '}'
    ||| c == '+'
    ||| c == '-'
    ||| c == '*'
    ||| c == '/'
    ||| c == '='
    ||| c == '<'
    ||| c == ';'
    ||| '0' <= c <= '9'
    ||| 'a' <= c <= 'z'
    ||| 'A' <= c <= 'Z'
}

/// The index of the line break that ends a comment running from `i` (or the end of the source).
pub open spec fn comment_end(src: Seq<char>, i: nat) -> nat
    decreases src.len() - i,
{
    if i < src.len() && src[i as int] != '\n' {
        comment_end(src, i + 1)
    } else {
        i
    }
}

pub proof fn lemma_comment_end(src: Seq<char>, i: nat)
    ensures
        i <= comment_end(src, i),
        i <= src.len() ==> comment_end(src, i) <= src.len(),
    decreases src.len() - i,
{
    if i < src.len() && src[i as int] != '\n' {
        lemma_comment_end(src, i + 1);
    }
}

/// The index of the first character from `i` that is neither white space nor part of a `//`
/// comment; with `eos`, a line break stops the skipping too.
pub open spec fn skip_end(src: Seq<char>, i: nat, eos: bool) -> nat
    decreases src.len() - i,
{
    if i >= src.len() {
        i
    } else if src[i as int] == '\n' && eos {
        i
    } else if is_white_space(src[i as int]) {
        skip_end(src, i + 1, eos)
    } else if src[i as int] == '/' && i + 1 < src.len() && src[i + 1int] == '/' {
        proof {
            lemma_comment_end(src, i + 2);
        }
        skip_end(src, comment_end(src, i + 2), eos)
    } else {
        i
    }
}

/// The end of an identifier whose rest starts at `i`.
pub open spec fn ident_end(src: Seq<char>, i: nat) -> nat
    decreases src.len() - i,
{
    if i < src.len() && (alphanumeric(src[i as int]) || src[i as int] == '_') {
        ident_end(src, i + 1)
    } else {
        i
    }
}

/// An identifier runs as far as it can: every character from `i` up to its end is alphanumeric
/// (in either case) or `_`, and the character at its end, if there is one, is neither; so no
/// identifier is followed directly by a character that could continue it.
pub proof fn lemma_ident_end_maximal(src: Seq<char>, i: nat)
    requires
        i <= src.len(),
    ensures
        i <= ident_end(src, i) <= src.len(),
        forall|k: int| i <= k < ident_end(src, i) ==> alphanumeric(#[trigger] src[k]) || src[k] == '_',
        ident_end(src, i) < src.len() ==> !(alphanumeric(src[ident_end(src, i) as int]) || src[ident_end(
            src,
            i,
        ) as int] == '_'),
    decreases src.len() - i,
{
    if i < src.len() && (alphanumeric(src[i as int]) || src[i as int] == '_') {
        lemma_ident_end_maximal(src, i + 1);
    }
}

/// A token that starts with a letter (an identifier or a keyword) holds the whole word: after
/// its first letter, every character it holds is alphanumeric (in either case) or `_`, and the
/// character after it, if there is one, is neither.
pub proof fn lemma_word_token_maximal(src: Seq<char>, i: nat, eos: bool)
    requires
        i < src.len(),
        ('a' <= src[i as int] <= 'z') || ('A' <= src[i as int] <= 'Z'),
    ensures
        i < lex_at(src, i, eos).end <= src.len(),
        lex_at(src, i, eos).text == src.subrange(i as int, lex_at(src, i, eos).end as int),
        forall|k: int| i < k < lex_at(src, i, eos).end ==> alphanumeric(#[trigger] src[k]) || src[k] == '_',
        lex_at(src, i, eos).end < src.len() ==> !(alphanumeric(src[lex_at(src, i, eos).end as int])
            || src[lex_at(src, i, eos).end as int] == '_'),
{
    lemma_ident_end_maximal(src, i + 1);
}

/// The end of an unknown token whose rest starts at `i`.
pub open spec fn unknown_end(src: Seq<char>, i: nat) -> nat
    decreases src.len() - i,
{
    if i < src.len() && !ends_unknown(src[i as int]) {
        unknown_end(src, i + 1)
    } else {
        i
    }
}

/// The end of a number whose rest starts at `i`, and whether it has a decimal point.
pub open spec fn number_end(src: Seq<char>, i: nat, is_float: bool) -> (nat, bool)
    decreases src.len() - i,
{
    if i >= src.len() {
        (i, is_float)
    } else if src[i as int] == '.' {
        if is_float {
            (i, true)
        } else {
            number_end(src, i + 1, true)
        }
    } else if !numeric(src[i as int]) && src[i as int] != '_' {
        (i, is_float)
    } else {
        number_end(src, i + 1, is_float)
    }
}

/// The token that starts at index `i` (after white space and comments have been skipped).
pub open spec fn lex_at(src: Seq<char>, i: nat, eos: bool) -> LexedToken {
    if i >= src.len() {
        LexedToken { ty: Ty::Eof, pos: byte_offset(src, i), text: ""@, end: i }
    } else {
        let c = src[i as int];
        if eos && c == '\n' {
            LexedToken { ty: Ty::Semicolon, pos: byte_offset(src, i + 1), text: ";"@, end: i + 1 }
        } else if eos && c == '}' {
            LexedToken { ty: Ty::Semicolon, pos: byte_offset(src, i), text: ";"@, end: i }
        } else if ('a' <= c <= 'z') || ('A' <= c <= 'Z') {
            let e = ident_end(src, i + 1);
            LexedToken {
                ty: keyword_ty(src.subrange(i as int, e as int)),
                pos: byte_offset(src, i),
                text: src.subrange(i as int, e as int),
                end: e,
            }
        } else if '0' <= c <= '9' {
            let (e, f) = number_end(src, i + 1, false);
            LexedToken {
                ty: if f {
                    Ty::Float
                } else {
                    Ty::Int
                },
                pos: byte_offset(src, i),
                text: src.subrange(i as int, e as int),
                end: e,
            }
        } else if single_char_ty(c) is Some {
            let ty = single_char_ty(c)->0;
            LexedToken { ty, pos: byte_offset(src, i + 1), text: punct_text(ty), end: i + 1 }
        } else if c == '=' {
            if i + 1 < src.len() && src[i + 1int] == '=' {
                LexedToken {
                    ty: Ty::EqualEqual,
                    pos: byte_offset(src, i + 2),
                    text: "=="@,
                    end: i + 2,
                }
            } else {
                LexedToken { ty: Ty::Equal, pos: byte_offset(src, i + 1), text: "="@, end: i + 1 }
            }
        } else if c == '.' && i + 1 < src.len() && src[i + 1int] == '.' {
            LexedToken {
                ty: Ty::RangeOperator,
                pos: byte_offset(src, i + 2),
                text: ".."@,
                end: i + 2,
            }
        } else if c == ':' && i + 1 < src.len() && src[i + 1int] == ':' {
            LexedToken {
                ty: Ty::ModuleOperator,
                pos: byte_offset(src, i + 2),
                text: "::"@,
                end: i + 2,
            }
        } else {
            let e = unknown_end(src, i + 1);
            LexedToken {
                ty: Ty::Unknown,
                pos: byte_offset(src, i),
                text: src.subrange(i as int, e as int),
                end: e,
            }
        }
    }
}

/// The next token from index `i`: white space and comments are skipped first.
pub open spec fn lex_next(src: Seq<char>, i: nat, eos: bool) -> LexedToken {
    lex_at(src, skip_end(src, i, eos), eos)
}


pub proof fn lemma_ident_end(src: Seq<char>, i: nat)
    ensures
        i <= ident_end(src, i),
        i <= src.len() ==> ident_end(src, i) <= src.len(),
    decreases src.len() - i,
{
    if i < src.len() && (alphanumeric(src[i as int]) || src[i as int] == '_') {
        lemma_ident_end(src, i + 1);
    }
}

pub proof fn lemma_unknown_end(src: Seq<char>, i: nat)
    ensures
        i <= unknown_end(src, i),
        i <= src.len() ==> unknown_end(src, i) <= src.len(),
    decreases src.len() - i,
{
    if i < src.len() && !ends_unknown(src[i as int]) {
        lemma_unknown_end(src, i + 1);
    }
}

pub proof fn lemma_number_end(src: Seq<char>, i: nat, f: bool)
    ensures
        i <= number_end(src, i, f).0,
        i <= src.len() ==> number_end(src, i, f).0 <= src.len(),
    decreases src.len() - i,
{
    if i < src.len() {
        if src[i as int] == '.' {
            if !f {
                lemma_number_end(src, i + 1, true);
            }
        } else if !(!numeric(src[i as int]) && src[i as int] != '_') {
            lemma_number_end(src, i + 1, f);
        }
    }
}

pub proof fn lemma_skip_end(src: Seq<char>, i: nat, eos: bool)
    ensures
        i <= skip_end(src, i, eos),
        i <= src.len() ==> skip_end(src, i, eos) <= src.len(),
    decreases src.len() - i,
{
    if i < src.len() && !(src[i as int] == '\n' && eos) {
        if is_white_space(src[i as int]) {
            lemma_skip_end(src, i + 1, eos);
        } else if src[i as int] == '/' && i + 1 < src.len() && src[i + 1int] == '/' {
            lemma_comment_end(src, i + 2);
            lemma_skip_end(src, comment_end(src, i + 2), eos);
        }
    }
}

/// The next token lies within the source; the end of input is met at its end only; and without
/// `eos` every other token takes at least one character.
pub proof fn lemma_lex_next_bounds(src: Seq<char>, i: nat, eos: bool)
    requires
        i <= src.len(),
    ensures
        i <= lex_next(src, i, eos).end <= src.len(),
        lex_next(src, i, eos).ty == Ty::Eof ==> lex_next(src, i, eos).end == src.len(),
        !eos && lex_next(src, i, eos).ty != Ty::Eof ==> i < lex_next(src, i, eos).end,
{
    let j = skip_end(src, i, eos);
    lemma_skip_end(src, i, eos);
    if j < src.len() {
        lemma_ident_end(src, j + 1);
        lemma_unknown_end(src, j + 1);
        lemma_number_end(src, j + 1, false);
        let c = src[j as int];
        if ('a' <= c <= 'z') || ('A' <= c <= 'Z') {
        } else if '0' <= c <= '9' {
        } else if single_char_ty(c) is Some {
        }
    }
}

pub proof fn lemma_byte_offset_step(src: Seq<char>, i: nat)
    requires
        i < src.len(),
    ensures
        byte_offset(src, i + 1) == byte_offset(src, i) + utf8_width(src[i as int]),
{
    let t = src.take(i as int + 1);
    assert(t.drop_last() =~= src.take(i as int));
    assert(t.last() == src[i as int]);
}

pub proof fn lemma_byte_offset_mono(src: Seq<char>, i: nat, j: nat)
    requires
        i <= j <= src.len(),
    ensures
        byte_offset(src, i) <= byte_offset(src, j),
        byte_offset(src, j) <= utf8_len(src),
    decreases src.len() - i,
{
    if i < j {
        lemma_byte_offset_step(src, i);
        lemma_byte_offset_mono(src, i + 1, j);
    } else if j < src.len() {
        lemma_byte_offset_step(src, j);
        lemma_byte_offset_mono(src, j + 1, j + 1);
    } else {
        assert(src.take(j as int) =~= src);
    }
}


fn make_token(str_store: &mut StrStore, ty: Ty, pos: usize, text: &str) -> (r: Token)
    requires
        old(str_store).wf(),
    ensures
        final(str_store).wf(),
        made_token(r, ty, pos as nat, text@, old(str_store)@, final(str_store)@),
{
    let lexeme = str_store.get_mstr(text);
    Token { ty, pos: Pos(pos as u32), lexeme }
}

impl Token {
    /// The `OpenParen` token at byte offset `pos`, its text `"("` interned.
    pub fn new_open_paren(str_store: &mut StrStore, pos: usize) -> (r: Self)
        requires
            old(str_store).wf(),
        ensures
            final(str_store).wf(),
            made_token(r, Ty::OpenParen, pos as nat, punct_text(Ty::OpenParen), old(str_store)@, final(str_store)@),
    {
        make_token(str_store, Ty::OpenParen, pos, "(")
    }

    /// The `CloseParen` token at byte offset `pos`, its text `")"` interned.
    pub fn new_close_paren(str_store: &mut StrStore, pos: usize) -> (r: Self)
        requires
            old(str_store).wf(),
        ensures
            final(str_store).wf(),
            made_token(r, Ty::CloseParen, pos as nat, punct_text(Ty::CloseParen), old(str_store)@, final(str_store)@),
    {
        make_token(str_store, Ty::CloseParen, pos, ")")
    }

    /// The `OpenBrace` token at byte offset `pos`, its text `"{"` interned.
    pub fn new_open_brace(str_store: &mut StrStore, pos: usize) -> (r: Self)
        requires
            old(str_store).wf(),
        ensures
            final(str_store).wf(),
            made_token(r, Ty::OpenBrace, pos as nat, punct_text(Ty::OpenBrace), old(str_store)@, final(str_store)@),
    {
        make_token(str_store, Ty::OpenBrace, pos, "{")
    }

    /// The `CloseBrace` token at byte offset `pos`, its text `"}"` interned.
    pub fn new_close_brace(str_store: &mut StrStore, pos: usize) -> (r: Self)
        requires
            old(str_store).wf(),
        ensures
            final(str_store).wf(),
            made_token(r, Ty::CloseBrace, pos as nat, punct_text(Ty::CloseBrace), old(str_store)@, final(str_store)@),
    {
        make_token(str_store, Ty::CloseBrace, pos, "}")
    }

    /// The `RangeOperator` token at byte offset `pos`, its text `".."` interned.
    pub fn new_range(str_store: &mut StrStore, pos: usize) -> (r: Self)
        requires
            old(str_store).wf(),
        ensures
            final(str_store).wf(),
            made_token(r, Ty::RangeOperator, pos as nat, punct_text(Ty::RangeOperator), old(str_store)@, final(str_store)@),
    {
        make_token(str_store, Ty::RangeOperator, pos, "..")
    }

    /// The `ModuleOperator` token at byte offset `pos`, its text `"::"` interned.
    pub fn new_module(str_store: &mut StrStore, pos: usize) -> (r: Self)
        requires
            old(str_store).wf(),
        ensures
            final(str_store).wf(),
            made_token(r, Ty::ModuleOperator, pos as nat, punct_text(Ty::ModuleOperator), old(str_store)@, final(str_store)@),
    {
        make_token(str_store, Ty::ModuleOperator, pos, "::")
    }

    /// The `Plus` token at byte offset `pos`, its text `"+"` interned.
    pub fn new_plus(str_store: &mut StrStore, pos: usize) -> (r: Self)
        requires
            old(str_store).wf(),
        ensures
            final(str_store).wf(),
            made_token(r, Ty::Plus, pos as nat, punct_text(Ty::Plus), old(str_store)@, final(str_store)@),
    {
        make_token(str_store, Ty::Plus, pos, "+")
    }

    /// The `Minus` token at byte offset `pos`, its text `"-"` interned.
    pub fn new_minus(str_store: &mut StrStore, pos: usize) -> (r: Self)
        requires
            old(str_store).wf(),
        ensures
            final(str_store).wf(),
            made_token(r, Ty::Minus, pos as nat, punct_text(Ty::Minus), old(str_store)@, final(str_store)@),
    {
        make_token(str_store, Ty::Minus, pos, "-")
    }

    /// The `Multiply` token at byte offset `pos`, its text `"*"` interned.
    pub fn new_multiply(str_store: &mut StrStore, pos: usize) -> (r: Self)
        requires
            old(str_store).wf(),
        ensures
            final(str_store).wf(),
            made_token(r, Ty::Multiply, pos as nat, punct_text(Ty::Multiply), old(str_store)@, final(str_store)@),
    {
        make_token(str_store, Ty::Multiply, pos, "*")
    }

    /// The `Divide` token at byte offset `pos`, its text `"/"` interned.
    pub fn new_divide(str_store: &mut StrStore, pos: usize) -> (r: Self)
        requires
            old(str_store).wf(),
        ensures
            final(str_store).wf(),
            made_token(r, Ty::Divide, pos as nat, punct_text(Ty::Divide), old(str_store)@, final(str_store)@),
    {
        make_token(str_store, Ty::Divide, pos, "/")
    }

    /// The `Equal` token at byte offset `pos`, its text `"="` interned.
    pub fn new_equal(str_store: &mut StrStore, pos: usize) -> (r: Self)
        requires
            old(str_store).wf(),
        ensures
            final(str_store).wf(),
            made_token(r, Ty::Equal, pos as nat, punct_text(Ty::Equal), old(str_store)@, final(str_store)@),
    {
        make_token(str_store, Ty::Equal, pos, "=")
    }

    /// The `EqualEqual` token at byte offset `pos`, its text `"=="` interned.
    pub fn new_equal_equal(str_store: &mut StrStore, pos: usize) -> (r: Self)
        requires
            old(str_store).wf(),
        ensures
            final(str_store).wf(),
            made_token(r, Ty::EqualEqual, pos as nat, punct_text(Ty::EqualEqual), old(str_store)@, final(str_store)@),
    {
        make_token(str_store, Ty::EqualEqual, pos, "==")
    }

    /// The `LessThan` token at byte offset `pos`, its text `"<"` interned.
    pub fn new_less_than(str_store: &mut StrStore, pos: usize) -> (r: Self)
        requires
            old(str_store).wf(),
        ensures
            final(str_store).wf(),
            made_token(r, Ty::LessThan, pos as nat, punct_text(Ty::LessThan), old(str_store)@, final(str_store)@),
    {
        make_token(str_store, Ty::LessThan, pos, "<")
    }

    /// The `Semicolon` token at byte offset `pos`, its text `";"` interned.
    pub fn new_semicolon(str_store: &mut StrStore, pos: usize) -> (r: Self)
        requires
            old(str_store).wf(),
        ensures
            final(str_store).wf(),
            made_token(r, Ty::Semicolon, pos as nat, punct_text(Ty::Semicolon), old(str_store)@, final(str_store)@),
    {
        make_token(str_store, Ty::Semicolon, pos, ";")
    }

    /// The `Comma` token at byte offset `pos`, its text `","` interned.
    pub fn new_comma(str_store: &mut StrStore, pos: usize) -> (r: Self)
        requires
            old(str_store).wf(),
        ensures
            final(str_store).wf(),
            made_token(r, Ty::Comma, pos as nat, punct_text(Ty::Comma), old(str_store)@, final(str_store)@),
    {
        make_token(str_store, Ty::Comma, pos, ",")
    }

    /// The `Eof` token at byte offset `pos`, its text `""` interned.
    pub fn new_eof(str_store: &mut StrStore, pos: usize) -> (r: Self)
        requires
            old(str_store).wf(),
        ensures
            final(str_store).wf(),
            made_token(r, Ty::Eof, pos as nat, punct_text(Ty::Eof), old(str_store)@, final(str_store)@),
    {
        make_token(str_store, Ty::Eof, pos, "")
    }
}


/// The lexer as its contracts see it: the character index it has reached, the token it holds
/// for `peek`, and whether the token it gave out last may end a statement.
pub ghost struct LexState {
    pub cursor: nat,
    pub peek: LexedToken,
    pub eos: bool,
}

/// One call of `next`: the held token is given out and the next one is lexed (with `eos` cleared
/// while lexing).
pub open spec fn step(src: Seq<char>, s: LexState) -> LexState {
    let lt = lex_next(src, s.cursor, false);
    LexState { cursor: lt.end, peek: lt, eos: can_end_statement(s.peek.ty) }
}

/// `n` calls of `next`.
pub open spec fn steps(src: Seq<char>, s: LexState, n: nat) -> LexState
    decreases n,
{
    if n == 0 {
        s
    } else {
        steps(src, step(src, s), (n - 1) as nat)
    }
}

/// The string store after `n` calls of `next`: each call interns the text of the token it lexes.
pub open spec fn store_after_steps(
    store: Seq<Seq<char>>,
    src: Seq<char>,
    s: LexState,
    n: nat,
) -> Seq<Seq<char>>
    decreases n,
{
    if n == 0 {
        store
    } else {
        store_after_steps(interned(store, step(src, s).peek.text), src, step(src, s), (n - 1) as nat)
    }
}

/// `n` calls of `next` gave out tokens none of which is of a kind in `stop` or the end of input,
/// but for the last one.
pub open spec fn ran_until(src: Seq<char>, s: LexState, n: nat, stop: spec_fn(Ty) -> bool) -> bool {
    &&& 1 <= n
    &&& forall|k: nat|
        k + 1 < n ==> !stop(#[trigger] steps(src, s, k).peek.ty) && steps(src, s, k).peek.ty
            != Ty::Eof
}

/// The kinds at which `recover_until_decl` stops.
pub open spec fn decl_stop() -> spec_fn(Ty) -> bool {
    |t: Ty| is_decl_keyword(t)
}

/// The kinds at which `recover_until_expr` stops.
pub open spec fn expr_stop() -> spec_fn(Ty) -> bool {
    |t: Ty| t == Ty::Semicolon || t == Ty::CloseBrace
}

pub proof fn lemma_steps_last(src: Seq<char>, s: LexState, n: nat)
    ensures
        steps(src, s, n + 1) == step(src, steps(src, s, n)),
    decreases n,
{
    if n > 0 {
        lemma_steps_last(src, step(src, s), (n - 1) as nat);
        assert(steps(src, s, n) == steps(src, step(src, s), (n - 1) as nat));
    } else {
        assert(steps(src, step(src, s), 0) == step(src, s));
    }
    assert(steps(src, s, n + 1) == steps(src, step(src, s), n));
}

pub proof fn lemma_store_after_steps_last(
    store: Seq<Seq<char>>,
    src: Seq<char>,
    s: LexState,
    n: nat,
)
    ensures
        store_after_steps(store, src, s, n + 1) == interned(
            store_after_steps(store, src, s, n),
            steps(src, s, n + 1).peek.text,
        ),
    decreases n,
{
    let store1 = interned(store, step(src, s).peek.text);
    if n > 0 {
        lemma_store_after_steps_last(store1, src, step(src, s), (n - 1) as nat);
        lemma_steps_last(src, step(src, s), (n - 1) as nat);
        lemma_steps_last(src, s, n);
        assert(store_after_steps(store, src, s, n) == store_after_steps(
            store1,
            src,
            step(src, s),
            (n - 1) as nat,
        ));
        assert(steps(src, s, n) == steps(src, step(src, s), (n - 1) as nat));
    } else {
        assert(store_after_steps(store1, src, step(src, s), 0) == store1);
        assert(steps(src, step(src, s), 0) == step(src, s));
    }
    assert(store_after_steps(store, src, s, n + 1) == store_after_steps(
        store1,
        src,
        step(src, s),
        n,
    ));
    assert(steps(src, s, n + 1) == steps(src, step(src, s), n));
}

/// A lexer over one source string.
pub struct Lexer<'s> {
    source: &'s str,
    chars: Vec<char>,
    idx: usize,
    pos: usize,
    is_at_eos: bool,
    next: Token,
    peek_spec: Ghost<LexedToken>,
}

impl<'s> Lexer<'s> {
    /// The characters of the source.
    pub closed spec fn src(&self) -> Seq<char> {
        self.chars@
    }

    /// The lexer's state.
    pub closed spec fn state(&self) -> LexState {
        LexState { cursor: self.idx as nat, peek: self.peek_spec@, eos: self.is_at_eos }
    }

    /// The token that `peek` gives.
    pub closed spec fn peeked(&self) -> Token {
        self.next
    }

    /// The lexer's fields agree with one another.
    pub closed spec fn wf(&self) -> bool {
        &&& self.chars@ == self.source@
        &&& self.idx <= self.chars@.len()
        &&& self.pos == byte_offset(self.chars@, self.idx as nat)
        &&& utf8_len(self.chars@) <= usize::MAX
    }

    /// The lexer is consistent, and the token it holds is the token of its state, its text
    /// interned in `store`.
    pub open spec fn valid_in(&self, store: Seq<Seq<char>>) -> bool {
        &&& self.wf()
        &&& self.state().cursor <= self.src().len()
        &&& self.state().peek.end == self.state().cursor
        &&& (self.state().peek.ty == Ty::Eof ==> self.state().cursor == self.src().len())
        &&& token_matches(self.peeked(), self.state().peek, store)
    }

    /// A measure of the input that is left: it drops with every token other than the end of
    /// input that `next` gives out.
    pub open spec fn remaining(&self) -> nat {
        (self.src().len() - self.state().cursor) as nat + if self.state().peek.ty == Ty::Eof {
            0nat
        } else {
            1nat
        }
    }

    /// A lexer over `source`, holding its first token.
    pub fn new(str_store: &mut StrStore, source: &'s str) -> (r: Self)
        requires
            old(str_store).wf(),
            utf8_len(source@) <= usize::MAX,
        ensures
            final(str_store).wf(),
            r.valid_in(final(str_store)@),
            r.src() == source@,
            r.state().peek == lex_next(source@, 0, false),
            !r.state().eos,
            final(str_store)@ == interned(interned(old(str_store)@, ""@), r.state().peek.text),
    {
        let mut chars: Vec<char> = Vec::new();
        for c in it: source.chars()
            invariant
                chars@ == it.seq().take(it.index() as int),
        {
            chars.push(c);
        }
        assert(chars@ == source@);
        let eof = Token::new_eof(str_store, 0);
        let mut lexer = Lexer {
            source,
            chars,
            idx: 0,
            pos: 0,
            is_at_eos: false,
            next: eof,
            peek_spec: Ghost(LexedToken { ty: Ty::Eof, pos: 0, text: ""@, end: 0 }),
        };
        proof {
            assert(lexer.chars@.take(0) =~= Seq::<char>::empty());
        }
        let ghost lt = lex_next(lexer.chars@, 0, false);
        let first = lexer.lex_token(str_store);
        lexer.next = first;
        lexer.peek_spec = Ghost(lt);
        proof {
            lemma_lex_next_bounds(lexer.chars@, 0, false);
        }
        lexer
    }

    /// Gives out the token held and lexes the one after it.
    pub fn next(&mut self, str_store: &mut StrStore) -> (r: Token)
        requires
            old(self).valid_in(old(str_store)@),
            old(str_store).wf(),
        ensures
            final(str_store).wf(),
            final(self).valid_in(final(str_store)@),
            final(self).src() == old(self).src(),
            r == old(self).peeked(),
            final(self).state() == step(old(self).src(), old(self).state()),
            final(str_store)@ == interned(old(str_store)@, final(self).state().peek.text),
            final(self).remaining() <= old(self).remaining(),
            r.ty != Ty::Eof ==> final(self).remaining() < old(self).remaining(),
    {
        self.is_at_eos = false;
        let token = self.next;
        let ghost lt = lex_next(self.chars@, self.idx as nat, false);
        proof {
            lemma_lex_next_bounds(self.chars@, self.idx as nat, false);
        }
        let next = self.lex_token(str_store);
        self.next = next;
        self.peek_spec = Ghost(lt);
        if self.can_end_statement(token.ty) {
            self.is_at_eos = true;
        }
        token
    }

    /// The token held.
    pub fn peek(&self) -> (r: &Token)
        ensures
            *r == self.peeked(),
    {
        &self.next
    }

    /// Eats tokens until the next declaration: afterwards the token held starts a declaration
    /// (`fn`, `use`, `mod`, `type`) and the answer is `true`, or it is the end of input and the
    /// answer is `false`. The token that starts the declaration is not given out.
    pub fn recover_until_decl(&mut self, str_store: &mut StrStore) -> (found: bool)
        requires
            old(self).valid_in(old(str_store)@),
            old(str_store).wf(),
        ensures
            final(str_store).wf(),
            final(self).valid_in(final(str_store)@),
            final(self).src() == old(self).src(),
            exists|n: nat|
                {
                    &&& #[trigger] ran_until(old(self).src(), old(self).state(), n, decl_stop())
                    &&& found == is_decl_keyword(steps(old(self).src(), old(self).state(), (n - 1) as nat).peek.ty)
                    &&& !found ==> steps(old(self).src(), old(self).state(), (n - 1) as nat).peek.ty == Ty::Eof
                    &&& final(self).state() == steps(old(self).src(), old(self).state(), (n - 1) as nat)
                    &&& final(str_store)@ == store_after_steps(old(str_store)@, old(self).src(), old(self).state(), (n - 1) as nat)
                },
            found == is_decl_keyword(final(self).state().peek.ty),
            !found ==> final(self).state().peek.ty == Ty::Eof,
            final(self).remaining() <= old(self).remaining(),
            old(str_store)@.is_prefix_of(final(str_store)@),
    {
        let ghost src = self.src();
        let ghost s0 = self.state();
        let ghost store0 = str_store@;
        let ghost stop = decl_stop();
        let ghost mut n: nat = 0;
        let ghost m0 = self.remaining();
        loop
            invariant
                stop == decl_stop(),
                src == old(self).src(),
                s0 == old(self).state(),
                store0 == old(str_store)@,
                m0 == old(self).remaining(),
                str_store.wf(),
                self.valid_in(str_store@),
                self.src() == src,
                self.state() == steps(src, s0, n),
                str_store@ == store_after_steps(store0, src, s0, n),
                forall|k: nat| k < n ==> !stop(#[trigger] steps(src, s0, k).peek.ty) && steps(src, s0, k).peek.ty != Ty::Eof,
                self.remaining() <= m0,
                store0.is_prefix_of(str_store@),
            decreases self.remaining(),
        {
            let ty = self.peek().ty;
            assert(ty == steps(src, s0, n).peek.ty);
            if ty == Ty::FnKeyword || ty == Ty::UseKeyword || ty == Ty::ModKeyword || ty == Ty::TypeKeyword {
                assert(ran_until(src, s0, n + 1, stop));
                return true;
            }
            if ty == Ty::Eof {
                assert(ran_until(src, s0, n + 1, stop));
                return false;
            }
            proof {
                lemma_steps_last(src, s0, n);
                lemma_store_after_steps_last(store0, src, s0, n);
            }
            let ghost sb = str_store@;
            self.next(str_store);
            proof {
                lemma_interned_prefix(sb, self.state().peek.text);
                lemma_seq_prefix_trans(store0, sb, str_store@);
                n = n + 1;
            }
        }
    }

    /// Eats tokens until the next expression: up to and including the next `;` or `}`, and the
    /// answer is `true`; or, when the end of input comes first, up to it (it stays the token
    /// held), and the answer is `false`.
    pub fn recover_until_expr(&mut self, str_store: &mut StrStore) -> (found: bool)
        requires
            old(self).valid_in(old(str_store)@),
            old(str_store).wf(),
        ensures
            final(str_store).wf(),
            final(self).valid_in(final(str_store)@),
            final(self).src() == old(self).src(),
            exists|n: nat|
                {
                    let stop = expr_stop();
                    let last = steps(old(self).src(), old(self).state(), (n - 1) as nat).peek.ty;
                    &&& #[trigger] ran_until(old(self).src(), old(self).state(), n, expr_stop())
                    &&& found == stop(last)
                    &&& !found ==> last == Ty::Eof
                    &&& final(self).state() == steps(old(self).src(), old(self).state(), if found { n } else { (n - 1) as nat })
                    &&& final(str_store)@ == store_after_steps(old(str_store)@, old(self).src(), old(self).state(), if found { n } else { (n - 1) as nat })
                },
            final(self).remaining() < old(self).remaining() || old(self).state().peek.ty == Ty::Eof,
            final(self).remaining() <= old(self).remaining(),
            old(str_store)@.is_prefix_of(final(str_store)@),
    {
        let ghost src = self.src();
        let ghost s0 = self.state();
        let ghost store0 = str_store@;
        let ghost stop = expr_stop();
        let ghost mut n: nat = 0;
        let ghost m0 = self.remaining();
        loop
            invariant
                stop == expr_stop(),
                src == old(self).src(),
                s0 == old(self).state(),
                store0 == old(str_store)@,
                m0 == old(self).remaining(),
                str_store.wf(),
                self.valid_in(str_store@),
                self.src() == src,
                self.state() == steps(src, s0, n),
                str_store@ == store_after_steps(store0, src, s0, n),
                forall|k: nat| k < n ==> !stop(#[trigger] steps(src, s0, k).peek.ty) && steps(src, s0, k).peek.ty != Ty::Eof,
                n > 0 ==> self.remaining() < m0,
                self.remaining() <= m0,
                store0.is_prefix_of(str_store@),
            decreases self.remaining(),
        {
            if self.peek().ty == Ty::Eof {
                assert(ran_until(src, s0, n + 1, stop));
                return false;
            }
            proof {
                lemma_steps_last(src, s0, n);
                lemma_store_after_steps_last(store0, src, s0, n);
            }
            let ghost before = self.state();
            let ghost sb = str_store@;
            let token = self.next(str_store);
            proof {
                lemma_interned_prefix(sb, self.state().peek.text);
                lemma_seq_prefix_trans(store0, sb, str_store@);
            }
            assert(token.ty == before.peek.ty);
            proof {
                n = n + 1;
            }
            if token.ty == Ty::Semicolon || token.ty == Ty::CloseBrace {
                assert(ran_until(src, s0, n, stop));
                return true;
            }
        }
    }

    fn can_end_statement(&self, ty: Ty) -> (r: bool)
        ensures
            r == can_end_statement(ty),
    {
        match ty {
            Ty::Identifier | Ty::Int | Ty::Float | Ty::TrueKeyword | Ty::FalseKeyword
            | Ty::BreakKeyword | Ty::CloseBrace | Ty::CloseParen => true,
            _ => false,
        }
    }

    fn bump(&mut self, ch: char) -> (r: usize)
        requires
            old(self).wf(),
            old(self).idx < old(self).chars@.len(),
            old(self).chars@[old(self).idx as int] == ch,
        ensures
            final(self).wf(),
            final(self).idx == old(self).idx + 1,
            final(self).chars == old(self).chars,
            final(self).source == old(self).source,
            final(self).is_at_eos == old(self).is_at_eos,
            final(self).next == old(self).next,
            final(self).peek_spec == old(self).peek_spec,
            r == final(self).pos,
    {
        proof {
            lemma_byte_offset_step(self.chars@, self.idx as nat);
            lemma_byte_offset_mono(self.chars@, (self.idx + 1) as nat, (self.idx + 1) as nat);
        }
        let _len = self.chars.len();
        let adv = char_len_utf8(ch);
        self.pos = self.pos + adv;
        self.idx = self.idx + 1;
        self.pos
    }

    fn next_char(&self) -> (r: Option<char>)
        requires
            self.wf(),
        ensures
            r == (if self.idx < self.chars@.len() {
                Some(self.chars@[self.idx as int])
            } else {
                None
            }),
    {
        if self.idx < self.chars.len() {
            Some(self.chars[self.idx])
        } else {
            None
        }
    }

    fn nth_char(&self, n: usize) -> (r: Option<char>)
        requires
            self.wf(),
        ensures
            r == (if self.idx + n < self.chars@.len() {
                Some(self.chars@[self.idx + n])
            } else {
                None
            }),
    {
        if n < self.chars.len() - self.idx {
            Some(self.chars[self.idx + n])
        } else {
            None
        }
    }

    pub closed spec fn same_frame(&self, other: &Self) -> bool {
        &&& self.chars == other.chars
        &&& self.source == other.source
        &&& self.is_at_eos == other.is_at_eos
        &&& self.next == other.next
        &&& self.peek_spec == other.peek_spec
    }

    /// Lexes the token at the cursor (after white space and comments).
    fn lex_token(&mut self, str_store: &mut StrStore) -> (r: Token)
        requires
            old(self).wf(),
            old(str_store).wf(),
        ensures
            final(self).wf(),
            final(str_store).wf(),
            final(self).same_frame(old(self)),
            final(self).idx == lex_next(old(self).chars@, old(self).idx as nat, old(self).is_at_eos).end,
            final(str_store)@ == interned(old(str_store)@, lex_next(old(self).chars@, old(self).idx as nat, old(self).is_at_eos).text),
            token_matches(r, lex_next(old(self).chars@, old(self).idx as nat, old(self).is_at_eos), final(str_store)@),
    {
        let ghost src = self.chars@;
        self.skip();
        let ch = match self.next_char() {
            Some(ch) => ch,
            None => {
                return Token::new_eof(str_store, self.pos);
            },
        };
        if self.insert_semicolon(ch) {
            return Token::new_semicolon(str_store, self.pos);
        }
        if ('a' <= ch && ch <= 'z') || ('A' <= ch && ch <= 'Z') {
            return self.lex_ident(str_store, ch);
        }
        if '0' <= ch && ch <= '9' {
            return self.lex_number(str_store, ch);
        }
        if ch == '(' {
            let p = self.bump(ch);
            return Token::new_open_paren(str_store, p);
        }
        if ch == ')' {
            let p = self.bump(ch);
            return Token::new_close_paren(str_store, p);
        }
        if ch == '{' {
            let p = self.bump(ch);
            return Token::new_open_brace(str_store, p);
        }
        if ch == '}' {
            let p = self.bump(ch);
            return Token::new_close_brace(str_store, p);
        }
        if ch == '+' {
            let p = self.bump(ch);
            return Token::new_plus(str_store, p);
        }
        if ch == '-' {
            let p = self.bump(ch);
            return Token::new_minus(str_store, p);
        }
        if ch == '*' {
            let p = self.bump(ch);
            return Token::new_multiply(str_store, p);
        }
        if ch == '/' {
            let p = self.bump(ch);
            return Token::new_divide(str_store, p);
        }
        if ch == '<' {
            let p = self.bump(ch);
            return Token::new_less_than(str_store, p);
        }
        if ch == ';' {
            let p = self.bump(ch);
            return Token::new_semicolon(str_store, p);
        }
        if ch == ',' {
            let p = self.bump(ch);
            return Token::new_comma(str_store, p);
        }
        if ch == '=' {
            if self.nth_is(1, '=') {
                self.bump('=');
                self.bump('=');
                return Token::new_equal_equal(str_store, self.pos);
            }
            let p = self.bump(ch);
            return Token::new_equal(str_store, p);
        }
        if ch == '.' && self.nth_is(1, '.') {
            self.bump('.');
            self.bump('.');
            return Token::new_range(str_store, self.pos);
        }
        if ch == ':' && self.nth_is(1, ':') {
            self.bump(':');
            self.bump(':');
            return Token::new_module(str_store, self.pos);
        }
        self.lex_unknown(str_store, ch)
    }

    fn lex_unknown(&mut self, str_store: &mut StrStore, ch: char) -> (r: Token)
        requires
            old(self).wf(),
            old(str_store).wf(),
            old(self).idx < old(self).chars@.len(),
            old(self).chars@[old(self).idx as int] == ch,
        ensures
            final(self).wf(),
            final(str_store).wf(),
            final(self).same_frame(old(self)),
            final(self).idx == unknown_end(old(self).chars@, (old(self).idx + 1) as nat),
            made_token(
                r,
                Ty::Unknown,
                byte_offset(old(self).chars@, old(self).idx as nat),
                old(self).chars@.subrange(old(self).idx as int, final(self).idx as int),
                old(str_store)@,
                final(str_store)@,
            ),
    {
        let ghost orig = *self;
        let start = self.pos;
        let start_idx = self.idx;
        self.bump(ch);
        loop
            invariant
                self.wf(),
                self.same_frame(&orig),
                start_idx < self.idx <= self.chars@.len(),
                unknown_end(self.chars@, self.idx as nat) == unknown_end(
                    self.chars@,
                    (start_idx + 1) as nat,
                ),
            ensures
                self.wf(),
                self.same_frame(&orig),
                start_idx < self.idx <= self.chars@.len(),
                self.idx == unknown_end(self.chars@, (start_idx + 1) as nat),
            decreases self.chars@.len() - self.idx,
        {
            match self.next_char() {
                Some(c) => {
                    if char_is_whitespace(c) {
                        break;
                    }
                    if c == '(' || c == ')' || c == '{' || c == '}' || c == '+' || c == '-' || c
                        == '*' || c == '/' || c == '=' || c == '<' || c == ';' || ('0' <= c && c
                        <= '9') || ('a' <= c && c <= 'z') || ('A' <= c && c <= 'Z') {
                        break;
                    }
                    self.bump(c);
                },
                None => {
                    break;
                },
            }
        }
        let s = self.source.substring_char(start_idx, self.idx);
        let lexeme = str_store.get_mstr(s);
        Token { ty: Ty::Unknown, pos: Pos::from(start), lexeme }
    }

    fn lex_ident(&mut self, str_store: &mut StrStore, ch: char) -> (r: Token)
        requires
            old(self).wf(),
            old(str_store).wf(),
            old(self).idx < old(self).chars@.len(),
            old(self).chars@[old(self).idx as int] == ch,
        ensures
            final(self).wf(),
            final(str_store).wf(),
            final(self).same_frame(old(self)),
            final(self).idx == ident_end(old(self).chars@, (old(self).idx + 1) as nat),
            made_token(
                r,
                keyword_ty(old(self).chars@.subrange(old(self).idx as int, final(self).idx as int)),
                byte_offset(old(self).chars@, old(self).idx as nat),
                old(self).chars@.subrange(old(self).idx as int, final(self).idx as int),
                old(str_store)@,
                final(str_store)@,
            ),
    {
        let ghost orig = *self;
        let start = self.pos;
        let start_idx = self.idx;
        self.bump(ch);
        loop
            invariant
                self.wf(),
                self.same_frame(&orig),
                start_idx < self.idx <= self.chars@.len(),
                ident_end(self.chars@, self.idx as nat) == ident_end(
                    self.chars@,
                    (start_idx + 1) as nat,
                ),
            ensures
                self.wf(),
                self.same_frame(&orig),
                start_idx < self.idx <= self.chars@.len(),
                self.idx == ident_end(self.chars@, (start_idx + 1) as nat),
            decreases self.chars@.len() - self.idx,
        {
            match self.next_char() {
                Some(c) => {
                    if !char_is_alphanumeric(c) && c != '_' {
                        break;
                    }
                    self.bump(c);
                },
                None => {
                    break;
                },
            }
        }
        let s = self.source.substring_char(start_idx, self.idx);
        self.ident_to_keyword(Pos::from(start), str_store, s)
    }

    fn ident_to_keyword(&self, pos: Pos, str_store: &mut StrStore, s: &str) -> (r: Token)
        requires
            old(str_store).wf(),
        ensures
            final(str_store).wf(),
            final(str_store)@ == interned(old(str_store)@, s@),
            final(str_store)@.contains(s@),
            r.ty == keyword_ty(s@),
            r.pos == pos,
            r.lexeme.id() == (final(str_store)@.index_of(s@) as u32) as nat,
    {
        let ty = if str_equal(s, "fn") {
            Ty::FnKeyword
        } else if str_equal(s, "true") {
            Ty::TrueKeyword
        } else if str_equal(s, "false") {
            Ty::FalseKeyword
        } else if str_equal(s, "if") {
            Ty::IfKeyword
        } else if str_equal(s, "loop") {
            Ty::LoopKeyword
        } else if str_equal(s, "break") {
            Ty::BreakKeyword
        } else if str_equal(s, "type") {
            Ty::TypeKeyword
        } else if str_equal(s, "in") {
            Ty::InKeyword
        } else if str_equal(s, "mod") {
            Ty::ModKeyword
        } else if str_equal(s, "use") {
            Ty::UseKeyword
        } else if str_equal(s, "return") {
            Ty::ReturnKeyword
        } else {
            Ty::Identifier
        };
        let lexeme = str_store.get_mstr(s);
        Token { ty, pos, lexeme }
    }

    fn lex_number(&mut self, str_store: &mut StrStore, ch: char) -> (r: Token)
        requires
            old(self).wf(),
            old(str_store).wf(),
            old(self).idx < old(self).chars@.len(),
            old(self).chars@[old(self).idx as int] == ch,
        ensures
            final(self).wf(),
            final(str_store).wf(),
            final(self).same_frame(old(self)),
            final(self).idx == number_end(old(self).chars@, (old(self).idx + 1) as nat, false).0,
            made_token(
                r,
                if number_end(old(self).chars@, (old(self).idx + 1) as nat, false).1 {
                    Ty::Float
                } else {
                    Ty::Int
                },
                byte_offset(old(self).chars@, old(self).idx as nat),
                old(self).chars@.subrange(old(self).idx as int, final(self).idx as int),
                old(str_store)@,
                final(str_store)@,
            ),
    {
        let ghost orig = *self;
        let start = self.pos;
        let start_idx = self.idx;
        self.bump(ch);
        let mut ty = Ty::Int;
        loop
            invariant
                self.wf(),
                self.same_frame(&orig),
                start_idx < self.idx <= self.chars@.len(),
                ty == Ty::Int || ty == Ty::Float,
                number_end(self.chars@, self.idx as nat, ty == Ty::Float) == number_end(
                    self.chars@,
                    (start_idx + 1) as nat,
                    false,
                ),
            ensures
                self.wf(),
                self.same_frame(&orig),
                start_idx < self.idx <= self.chars@.len(),
                ty == Ty::Int || ty == Ty::Float,
                (self.idx as nat, ty == Ty::Float) == number_end(
                    self.chars@,
                    (start_idx + 1) as nat,
                    false,
                ),
            decreases self.chars@.len() - self.idx,
        {
            match self.next_char() {
                Some(c) => {
                    if c == '.' && ty == Ty::Int {
                        ty = Ty::Float;
                        self.bump(c);
                        continue;
                    }
                    if c == '.' && ty == Ty::Float {
                        break;
                    }
                    if !char_is_numeric(c) && c != '_' {
                        break;
                    }
                    self.bump(c);
                },
                None => {
                    break;
                },
            }
        }
        let s = self.source.substring_char(start_idx, self.idx);
        let lexeme = str_store.get_mstr(s);
        Token { ty, pos: Pos::from(start), lexeme }
    }

    /// Whether the line may end here: a line break (consumed) or a `}` (left for the next token)
    /// after a token that can end a statement.
    fn insert_semicolon(&mut self, ch: char) -> (r: bool)
        requires
            old(self).wf(),
            old(self).idx < old(self).chars@.len(),
            old(self).chars@[old(self).idx as int] == ch,
        ensures
            final(self).wf(),
            final(self).same_frame(old(self)),
            r == (old(self).is_at_eos && (ch == '\n' || ch == '}')),
            final(self).idx == if r && ch == '\n' {
                old(self).idx + 1
            } else {
                old(self).idx as int
            },
    {
        if !self.is_at_eos {
            return false;
        }
        if ch == '\n' {
            self.bump(ch);
            return true;
        }
        if ch == '}' {
            return true;
        }
        false
    }

    /// Skips white space and `//` comments; with `is_at_eos`, a line break stops the skipping.
    fn skip(&mut self)
        requires
            old(self).wf(),
        ensures
            final(self).wf(),
            final(self).same_frame(old(self)),
            final(self).idx == skip_end(old(self).chars@, old(self).idx as nat, old(self).is_at_eos),
    {
        let ghost orig = *self;
        loop
            invariant
                self.wf(),
                self.same_frame(&orig),
                orig.idx <= self.idx <= self.chars@.len(),
                skip_end(self.chars@, self.idx as nat, self.is_at_eos) == skip_end(
                    self.chars@,
                    orig.idx as nat,
                    self.is_at_eos,
                ),
            ensures
                self.wf(),
                self.same_frame(&orig),
                self.idx == skip_end(self.chars@, orig.idx as nat, self.is_at_eos),
            decreases self.chars@.len() - self.idx,
        {
            match self.next_char() {
                Some(ch) => {
                    if ch == '\n' && self.is_at_eos {
                        break;
                    }
                    if char_is_whitespace(ch) {
                        self.bump(ch);
                    } else if ch == '/' && self.nth_is(1, '/') {
                        proof {
                            let i = self.idx as nat;
                            assert(comment_end(self.chars@, i) == comment_end(self.chars@, i + 1));
                            assert(comment_end(self.chars@, i + 1) == comment_end(self.chars@, i + 2));
                            lemma_comment_end(self.chars@, i + 2);
                        }
                        self.skip_comment();
                    } else {
                        break;
                    }
                },
                None => {
                    break;
                },
            }
        }
    }

    fn skip_comment(&mut self)
        requires
            old(self).wf(),
        ensures
            final(self).wf(),
            final(self).same_frame(old(self)),
            final(self).idx == comment_end(old(self).chars@, old(self).idx as nat),
    {
        let ghost orig = *self;
        loop
            invariant
                self.wf(),
                self.same_frame(&orig),
                orig.idx <= self.idx <= self.chars@.len(),
                comment_end(self.chars@, self.idx as nat) == comment_end(
                    self.chars@,
                    orig.idx as nat,
                ),
            ensures
                self.wf(),
                self.same_frame(&orig),
                self.idx == comment_end(self.chars@, orig.idx as nat),
            decreases self.chars@.len() - self.idx,
        {
            match self.next_char() {
                Some(ch) => {
                    if ch == '\n' {
                        break;
                    }
                    self.bump(ch);
                },
                None => {
                    break;
                },
            }
        }
    }

    fn nth_is(&self, n: usize, c: char) -> (r: bool)
        requires
            self.wf(),
        ensures
            r == (self.idx + n < self.chars@.len() && self.chars@[self.idx + n] == c),
    {
        match self.nth_char(n) {
            Some(d) => d == c,
            None => false,
        }
    }
}

} // verus!
