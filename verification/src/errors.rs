//! Diagnostics: the structured failure records every pipeline stage returns.

use vstd::prelude::*;

verus! {

/// What the parser expected at the point of failure.
#[derive(PartialEq, Eq, Structural, Clone, Copy, Debug)]
pub enum Expectation {
    /// A path word had to follow the import keyword.
    PathAfterImport,
    /// A name word had to follow the script keyword.
    NameAfterScript,
    /// A statement word or the end keyword inside a script body.
    StmtOrEnd,
    /// A top-level declaration keyword.
    Decl,
}

/// Spec-level mirror of [`Diagnostic`], over `Seq` and `int`.
pub struct SpecDiag {
    pub kind: SpecDiagKind,
}

/// The kinds of failure, stated over mathematical values.
pub enum SpecDiagKind {
    InputNotFound { path: Seq<u8> },
    CycleFound { chain: Seq<Seq<u8>> },
    MissingFile { importer: Seq<u8>, target: Seq<u8> },
    LexFail { line: int },
    ParseFail { line: int, expected: Expectation },
    DuplicateScript { name: Seq<u8> },
    UnresolvedName { name: Seq<u8> },
    ConfigMissingOutput,
    ConfigOutputWithoutBackend,
}

/// A structured failure record: one kind, with the context that makes the
/// failure attributable (paths, line numbers, names).
#[derive(Debug)]
pub enum Diagnostic {
    /// The entry path does not name a known file.
    InputNotFound { path: Vec<u8> },
    /// The import graph has a cycle; `chain` names every file in it.
    CycleFound { chain: Vec<Vec<u8>> },
    /// `importer` declares an import of `target`, which no file satisfies.
    MissingFile { importer: Vec<u8>, target: Vec<u8> },
    /// A byte on `line` of the merged source belongs to no token class.
    LexFail { line: usize },
    /// The token stream diverges from the grammar on `line`.
    ParseFail { line: usize, expected: Expectation },
    /// Two scripts declare the same `name`.
    DuplicateScript { name: Vec<u8> },
    /// A statement calls `name`, which no script declares.
    UnresolvedName { name: Vec<u8> },
    /// A backend run was requested but no output path was given.
    ConfigMissingOutput,
    /// An output path was given although the backend is disabled.
    ConfigOutputWithoutBackend,
}

impl View for Diagnostic {
    type V = SpecDiag;

    /// The mathematical value of this diagnostic.
    open spec fn view(&self) -> SpecDiag {
        SpecDiag {
            kind: match self {
                Diagnostic::InputNotFound { path } => SpecDiagKind::InputNotFound {
                    path: path@,
                },
                Diagnostic::CycleFound { chain } => SpecDiagKind::CycleFound {
                    chain: chain@.map_values(|p: Vec<u8>| p@),
                },
                Diagnostic::MissingFile { importer, target } => SpecDiagKind::MissingFile {
                    importer: importer@,
                    target: target@,
                },
                Diagnostic::LexFail { line } => SpecDiagKind::LexFail { line: line as int },
                Diagnostic::ParseFail { line, expected } => SpecDiagKind::ParseFail {
                    line: line as int,
                    expected: *expected,
                },
                Diagnostic::DuplicateScript { name } => SpecDiagKind::DuplicateScript {
                    name: name@,
                },
                Diagnostic::UnresolvedName { name } => SpecDiagKind::UnresolvedName {
                    name: name@,
                },
                Diagnostic::ConfigMissingOutput => SpecDiagKind::ConfigMissingOutput,
                Diagnostic::ConfigOutputWithoutBackend => SpecDiagKind::ConfigOutputWithoutBackend,
            },
        }
    }
}

} // verus!
