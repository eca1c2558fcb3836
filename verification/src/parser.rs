//! The parser: turns the token sequence into the project-level syntax tree.
//! Grammar: a project is a run of declarations; a declaration is either an
//! import directive (keyword then a path word) or a script (keyword, a name
//! word, a run of statement words, and the end keyword). Trailing or
//! misplaced tokens are rejected with the line and what was expected.

use vstd::prelude::*;
use crate::bytes_eq;
use crate::errors::Diagnostic;
use crate::errors::Expectation;
use crate::errors::SpecDiagKind;
use crate::lexer::SpecToken;
use crate::lexer::Token;
use crate::lexer::toks_view;

verus! {

/// One script: its name and the script names its statements call.
#[derive(Debug)]
pub struct Script {
    pub name: Vec<u8>,
    pub body: Vec<Vec<u8>>,
}

/// The project-level syntax tree.
#[derive(Debug)]
pub struct Project {
    pub imports: Vec<Vec<u8>>,
    pub scripts: Vec<Script>,
}

/// The mathematical value of a script.
pub struct SpecScript {
    pub name: Seq<u8>,
    pub body: Seq<Seq<u8>>,
}

/// The mathematical value of a project.
pub struct SpecProject {
    pub imports: Seq<Seq<u8>>,
    pub scripts: Seq<SpecScript>,
}

impl View for Script {
    type V = SpecScript;

    open spec fn view(&self) -> SpecScript {
        SpecScript { name: self.name@, body: self.body.deep_view() }
    }
}

impl View for Project {
    type V = SpecProject;

    open spec fn view(&self) -> SpecProject {
        SpecProject {
            imports: self.imports.deep_view(),
            scripts: self.scripts@.map_values(|s: Script| s@),
        }
    }
}

pub open spec fn kw_import() -> Seq<u8> {
    seq![105u8, 109u8, 112u8, 111u8, 114u8, 116u8]
}

pub open spec fn kw_script() -> Seq<u8> {
    seq![115u8, 99u8, 114u8, 105u8, 112u8, 116u8]
}

pub open spec fn kw_end() -> Seq<u8> {
    seq![101u8, 110u8, 100u8]
}

/// The line on which an unexpected end of input is reported.
pub open spec fn eof_line(ts: Seq<SpecToken>) -> int {
    if ts.len() > 0 {
        ts.last().line
    } else {
        1
    }
}

/// A script body: statement words until the end keyword, which is consumed.
/// Yields the statements and the index after the end keyword.
pub open spec fn spec_parse_body(ts: Seq<SpecToken>, i: int) -> Result<
    (Seq<Seq<u8>>, int),
    (int, Expectation),
>
    decreases ts.len() - i,
        when 0 <= i
{
    if i >= ts.len() {
        Err((eof_line(ts), Expectation::StmtOrEnd))
    } else if ts[i].text == kw_end() {
        Ok((seq![], i + 1))
    } else if ts[i].text == kw_script() || ts[i].text == kw_import() {
        Err((ts[i].line, Expectation::StmtOrEnd))
    } else {
        match spec_parse_body(ts, i + 1) {
            Ok((body, j)) => Ok((seq![ts[i].text] + body, j)),
            Err(e) => Err(e),
        }
    }
}

pub proof fn lemma_parse_body_bounds(ts: Seq<SpecToken>, i: int)
    requires
        0 <= i,
    ensures
        match spec_parse_body(ts, i) {
            Ok((body, j)) => i < j <= ts.len(),
            Err(e) => true,
        },
    decreases ts.len() - i,
{
    if i < ts.len() && ts[i].text != kw_end() && ts[i].text != kw_script() && ts[i].text
        != kw_import() {
        lemma_parse_body_bounds(ts, i + 1);
    }
}

/// The declarations from `i` on: import directives and scripts.
pub open spec fn spec_parse_decls(ts: Seq<SpecToken>, i: int) -> Result<
    SpecProject,
    (int, Expectation),
>
    decreases ts.len() - i,
        when 0 <= i
        via spec_parse_decls_dec
{
    if i >= ts.len() {
        Ok(SpecProject { imports: seq![], scripts: seq![] })
    } else if ts[i].text == kw_import() {
        if i + 1 >= ts.len() {
            Err((ts[i].line, Expectation::PathAfterImport))
        } else {
            match spec_parse_decls(ts, i + 2) {
                Ok(p) => Ok(
                    SpecProject { imports: seq![ts[i + 1].text] + p.imports, scripts: p.scripts },
                ),
                Err(e) => Err(e),
            }
        }
    } else if ts[i].text == kw_script() {
        if i + 1 >= ts.len() {
            Err((ts[i].line, Expectation::NameAfterScript))
        } else {
            match spec_parse_body(ts, i + 2) {
                Ok((body, j)) => match spec_parse_decls(ts, j) {
                    Ok(p) => Ok(
                        SpecProject {
                            imports: p.imports,
                            scripts: seq![SpecScript { name: ts[i + 1].text, body }] + p.scripts,
                        },
                    ),
                    Err(e) => Err(e),
                },
                Err(e) => Err(e),
            }
        }
    } else {
        Err((ts[i].line, Expectation::Decl))
    }
}

#[via_fn]
proof fn spec_parse_decls_dec(ts: Seq<SpecToken>, i: int) {
    if 0 <= i < ts.len() {
        lemma_parse_body_bounds(ts, i + 2);
    }
}

/// The syntax tree of a whole token sequence.
pub open spec fn spec_parse(ts: Seq<SpecToken>) -> Result<SpecProject, (int, Expectation)> {
    spec_parse_decls(ts, 0)
}

/// Whether `w` is exactly the given keyword bytes.
fn word_is(w: &Vec<u8>, kw: &Vec<u8>) -> (r: bool)
    ensures
        r <==> w@ == kw@,
{
    bytes_eq(w, kw)
}

fn kw_import_vec() -> (r: Vec<u8>)
    ensures
        r@ == kw_import(),
{
    let mut v: Vec<u8> = Vec::new();
    v.push(105);
    v.push(109);
    v.push(112);
    v.push(111);
    v.push(114);
    v.push(116);
    proof {
        assert(v@ =~= kw_import());
    }
    v
}

fn kw_script_vec() -> (r: Vec<u8>)
    ensures
        r@ == kw_script(),
{
    let mut v: Vec<u8> = Vec::new();
    v.push(115);
    v.push(99);
    v.push(114);
    v.push(105);
    v.push(112);
    v.push(116);
    proof {
        assert(v@ =~= kw_script());
    }
    v
}

fn kw_end_vec() -> (r: Vec<u8>)
    ensures
        r@ == kw_end(),
{
    let mut v: Vec<u8> = Vec::new();
    v.push(101);
    v.push(110);
    v.push(100);
    proof {
        assert(v@ =~= kw_end());
    }
    v
}

/// Parse one script body starting at `i`.
fn parse_body(tokens: &Vec<Token>, i: usize) -> (r: Result<(Vec<Vec<u8>>, usize), Diagnostic>)
    requires
        i <= tokens@.len(),
    ensures
        match spec_parse_body(toks_view(tokens@), i as int) {
            Ok((body, j)) => r matches Ok(p) && p.0.deep_view() == body && p.1 == j,
            Err((l, ex)) => r matches Err(e) && e@.kind == (SpecDiagKind::ParseFail {
                line: l,
                expected: ex,
            }),
        },
    decreases tokens@.len() - i,
{
    let ghost ts = toks_view(tokens@);
    if i >= tokens.len() {
        let line = if tokens.len() > 0 {
            tokens[tokens.len() - 1].line
        } else {
            1
        };
        proof {
            if tokens@.len() > 0 {
                assert(ts.last() == toks_view(tokens@)[tokens@.len() - 1]);
            }
        }
        return Err(Diagnostic::ParseFail { line, expected: Expectation::StmtOrEnd });
    }
    proof {
        assert(ts[i as int].text == tokens@[i as int].text@);
        assert(ts[i as int].line == tokens@[i as int].line as int);
    }
    if word_is(&tokens[i].text, &kw_end_vec()) {
        let empty: Vec<Vec<u8>> = Vec::new();
        proof {
            assert(empty.deep_view() =~= Seq::<Seq<u8>>::empty());
        }
        return Ok((empty, i + 1));
    }
    if word_is(&tokens[i].text, &kw_script_vec()) || word_is(&tokens[i].text, &kw_import_vec()) {
        return Err(
            Diagnostic::ParseFail { line: tokens[i].line, expected: Expectation::StmtOrEnd },
        );
    }
    match parse_body(tokens, i + 1) {
        Ok(p) => {
            let (mut body, j) = p;
            let ghost pre = body.deep_view();
            let w = crate::clone_bytes(&tokens[i].text);
            body.insert(0, w);
            proof {
                assert(body.deep_view() =~~= seq![ts[i as int].text] + pre);
            }
            Ok((body, j))
        },
        Err(e) => Err(e),
    }
}

/// Parse the declarations from `i` on.
fn parse_decls(tokens: &Vec<Token>, i: usize) -> (r: Result<Project, Diagnostic>)
    requires
        i <= tokens@.len(),
    ensures
        match spec_parse_decls(toks_view(tokens@), i as int) {
            Ok(sp) => r matches Ok(p) && p@ == sp,
            Err((l, ex)) => r matches Err(e) && e@.kind == (SpecDiagKind::ParseFail {
                line: l,
                expected: ex,
            }),
        },
    decreases tokens@.len() - i,
{
    let ghost ts = toks_view(tokens@);
    if i >= tokens.len() {
        let p = Project { imports: Vec::new(), scripts: Vec::new() };
        proof {
            assert(p@.imports =~= Seq::<Seq<u8>>::empty());
            assert(p@.scripts =~= Seq::<SpecScript>::empty());
            assert(p@ == (SpecProject {
                imports: Seq::<Seq<u8>>::empty(),
                scripts: Seq::<SpecScript>::empty(),
            }));
        }
        return Ok(p);
    }
    proof {
        assert(ts[i as int].text == tokens@[i as int].text@);
        assert(ts[i as int].line == tokens@[i as int].line as int);
    }
    if word_is(&tokens[i].text, &kw_import_vec()) {
        if i + 1 >= tokens.len() {
            return Err(
                Diagnostic::ParseFail { line: tokens[i].line, expected: Expectation::PathAfterImport },
            );
        }
        proof {
            assert(ts[i + 1].text == tokens@[i + 1].text@);
        }
        match parse_decls(tokens, i + 2) {
            Ok(mut p) => {
                let ghost preimp = p.imports.deep_view();
                let ghost prescr = p@.scripts;
                let w = crate::clone_bytes(&tokens[i + 1].text);
                p.imports.insert(0, w);
                proof {
                    assert(p.imports.deep_view() =~~= seq![ts[i + 1].text] + preimp);
                    assert(p@.scripts =~~= prescr);
                }
                Ok(p)
            },
            Err(e) => Err(e),
        }
    } else if word_is(&tokens[i].text, &kw_script_vec()) {
        if i + 1 >= tokens.len() {
            return Err(
                Diagnostic::ParseFail { line: tokens[i].line, expected: Expectation::NameAfterScript },
            );
        }
        proof {
            assert(ts[i + 1].text == tokens@[i + 1].text@);
            lemma_parse_body_bounds(ts, i + 2);
        }
        match parse_body(tokens, i + 2) {
            Ok(p0) => {
                let (body, j) = p0;
                match parse_decls(tokens, j) {
                    Ok(mut p) => {
                        let ghost preimp = p.imports.deep_view();
                        let ghost prescr = p@.scripts;
                        let name = crate::clone_bytes(&tokens[i + 1].text);
                        let ghost bodyv = body.deep_view();
                        p.scripts.insert(0, Script { name, body });
                        proof {
                            assert(p@.scripts =~~= seq![
                                SpecScript { name: ts[i + 1].text, body: bodyv },
                            ] + prescr);
                            assert(p.imports.deep_view() =~~= preimp);
                        }
                        Ok(p)
                    },
                    Err(e) => Err(e),
                }
            },
            Err(e) => Err(e),
        }
    } else {
        Err(Diagnostic::ParseFail { line: tokens[i].line, expected: Expectation::Decl })
    }
}

/// The parser over one token sequence.
pub struct Parser {
    pub tokens: Vec<Token>,
}

impl Parser {
    /// A parser over the given tokens.
    pub fn new(tokens: Vec<Token>) -> (r: Parser)
        ensures
            r.tokens@ == tokens@,
    {
        Parser { tokens }
    }

    /// The syntax tree of the whole token sequence, or the line and
    /// expectation at the first divergence from the grammar.
    pub fn parse_project(&self) -> (r: Result<Project, Diagnostic>)
        ensures
            match spec_parse(toks_view(self.tokens@)) {
                Ok(sp) => r matches Ok(p) && p@ == sp,
                Err((l, ex)) => r matches Err(e) && e@.kind == (SpecDiagKind::ParseFail {
                    line: l,
                    expected: ex,
                }),
            },
    {
        parse_decls(&self.tokens, 0)
    }
}

} // verus!
