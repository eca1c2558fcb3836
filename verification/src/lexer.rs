//! The lexer: classifies every byte of the merged source into word tokens
//! and whitespace, tracking line numbers, and rejects any byte outside those
//! classes with a positioned diagnostic.

use vstd::prelude::*;
use crate::errors::Diagnostic;
use crate::errors::SpecDiagKind;

verus! {

/// One token: a word and the line it starts on.
#[derive(Debug)]
pub struct Token {
    pub text: Vec<u8>,
    pub line: usize,
}

/// The mathematical value of a token.
pub struct SpecToken {
    pub text: Seq<u8>,
    pub line: int,
}

impl View for Token {
    type V = SpecToken;

    open spec fn view(&self) -> SpecToken {
        SpecToken { text: self.text@, line: self.line as int }
    }
}

/// The mathematical value of a token vector.
pub open spec fn toks_view(ts: Seq<Token>) -> Seq<SpecToken> {
    ts.map_values(|t: Token| SpecToken { text: t.text@, line: t.line as int })
}

/// Whitespace other than the newline.
pub open spec fn is_space(b: u8) -> bool {
    b == 32 || b == 9 || b == 13
}

/// Bytes a word may hold: letters, digits, and path punctuation.
pub open spec fn is_word_byte(b: u8) -> bool {
    (48 <= b <= 57) || (65 <= b <= 90) || (97 <= b <= 122) || b == 95 || b == 46 || b == 47 || b
        == 45
}

/// The first index at or after `i` whose byte ends a word, or the length.
pub open spec fn word_end(s: Seq<u8>, i: int) -> int
    decreases s.len() - i,
        when 0 <= i
{
    if i >= s.len() {
        s.len() as int
    } else if is_word_byte(s[i]) {
        word_end(s, i + 1)
    } else {
        i
    }
}

pub proof fn lemma_word_end(s: Seq<u8>, i: int)
    requires
        0 <= i <= s.len(),
    ensures
        i <= word_end(s, i) <= s.len(),
    decreases s.len() - i,
{
    if i < s.len() && is_word_byte(s[i]) {
        lemma_word_end(s, i + 1);
    }
}

/// The next line number: line counting saturates at the machine bound.
pub open spec fn bump_line(line: int) -> int {
    if line < usize::MAX as int {
        line + 1
    } else {
        line
    }
}

/// The tokens of `s` from index `i` on, current line `line`; or the line of
/// the first byte outside every token class.
pub open spec fn spec_lex_from(s: Seq<u8>, i: int, line: int) -> Result<Seq<SpecToken>, int>
    decreases s.len() - i,
        when 0 <= i
        via spec_lex_from_dec
{
    if i >= s.len() {
        Ok(seq![])
    } else if s[i] == 10 {
        spec_lex_from(s, i + 1, bump_line(line))
    } else if is_space(s[i]) {
        spec_lex_from(s, i + 1, line)
    } else if is_word_byte(s[i]) {
        let j = word_end(s, i);
        match spec_lex_from(s, j, line) {
            Ok(ts) => Ok(seq![SpecToken { text: s.subrange(i, j), line }] + ts),
            Err(e) => Err(e),
        }
    } else {
        Err(line)
    }
}

#[via_fn]
proof fn spec_lex_from_dec(s: Seq<u8>, i: int, line: int) {
    if 0 <= i < s.len() {
        lemma_word_end(s, i);
        if is_word_byte(s[i]) {
            assert(word_end(s, i) == word_end(s, i + 1));
            lemma_word_end(s, i + 1);
        }
    }
}

/// The tokens of a whole text, lines counted from one.
pub open spec fn spec_lex(s: Seq<u8>) -> Result<Seq<SpecToken>, int> {
    spec_lex_from(s, 0, 1)
}

/// Whether this byte may stand in a word.
fn word_byte(b: u8) -> (r: bool)
    ensures
        r <==> is_word_byte(b),
{
    (48 <= b && b <= 57) || (65 <= b && b <= 90) || (97 <= b && b <= 122) || b == 95 || b == 46
        || b == 47 || b == 45
}

/// The first index at or after `i` whose byte ends a word.
fn find_word_end(text: &Vec<u8>, i: usize) -> (r: usize)
    requires
        i <= text@.len(),
    ensures
        r == word_end(text@, i as int),
        i <= r <= text@.len(),
{
    let mut j: usize = i;
    while j < text.len() && word_byte(text[j])
        invariant
            i <= j <= text@.len(),
            word_end(text@, i as int) == word_end(text@, j as int),
        decreases text@.len() - j,
    {
        j += 1;
    }
    proof {
        lemma_word_end(text@, j as int);
    }
    j
}

/// The tokens of `text` from `i` on.
fn lex_from(text: &Vec<u8>, i: usize, line: usize) -> (r: Result<Vec<Token>, Diagnostic>)
    requires
        i <= text@.len(),
    ensures
        match spec_lex_from(text@, i as int, line as int) {
            Ok(ts) => r matches Ok(v) && toks_view(v@) == ts,
            Err(l) => r matches Err(e) && e@.kind == (SpecDiagKind::LexFail { line: l }),
        },
    decreases text@.len() - i,
{
    if i >= text.len() {
        let v: Vec<Token> = Vec::new();
        proof {
            assert(toks_view(v@) =~= Seq::<SpecToken>::empty());
        }
        return Ok(v);
    }
    let b = text[i];
    if b == 10 {
        let nl = if line < usize::MAX {
            line + 1
        } else {
            line
        };
        proof {
            assert(nl as int == bump_line(line as int));
        }
        lex_from(text, i + 1, nl)
    } else if b == 32 || b == 9 || b == 13 {
        lex_from(text, i + 1, line)
    } else if word_byte(b) {
        let j = find_word_end(text, i);
        proof {
            assert(word_end(text@, i as int) == word_end(text@, i + 1));
            lemma_word_end(text@, i + 1);
        }
        match lex_from(text, j, line) {
            Ok(mut ts) => {
                let ghost pre = ts@;
                let w = crate::paths::copy_range(text, i, j);
                ts.insert(0, Token { text: w, line });
                proof {
                    assert(ts@ =~= seq![Token { text: w, line }] + pre);
                    assert(toks_view(ts@) =~~= seq![
                        SpecToken { text: text@.subrange(i as int, j as int), line: line as int },
                    ] + toks_view(pre));
                }
                Ok(ts)
            },
            Err(e) => Err(e),
        }
    } else {
        Err(Diagnostic::LexFail { line })
    }
}

/// The lexer over one source text.
pub struct Lexer {
    pub text: Vec<u8>,
}

impl Lexer {
    /// A lexer over a copy of `source`.
    pub fn new(source: &Vec<u8>) -> (r: Lexer)
        ensures
            r.text@ == source@,
    {
        Lexer { text: crate::clone_bytes(source) }
    }

    /// Every token of the text, or the line of the first unclassifiable
    /// byte.
    pub fn tokenize(&self) -> (r: Result<Vec<Token>, Diagnostic>)
        ensures
            match spec_lex(self.text@) {
                Ok(ts) => r matches Ok(v) && toks_view(v@) == ts,
                Err(l) => r matches Err(e) && e@.kind == (SpecDiagKind::LexFail { line: l }),
            },
    {
        lex_from(&self.text, 0, 1)
    }
}

} // verus!
