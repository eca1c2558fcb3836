//! The pipeline coordinator: canonicalize the entry path, check the flag
//! configuration, resolve imports, and validate the merged unit with the
//! lexer, parser and semantic analyzer, short-circuiting on first failure.
//! Persisting the merged text and dispatching a backend are side effects the
//! caller performs from the returned plan; validation always completes
//! before any backend may run.

use vstd::prelude::*;
use crate::errors::Diagnostic;
use crate::errors::SpecDiagKind;
use crate::fsmodel::FsModel;
use crate::imports::MergedUnit;
use crate::imports::Resolution;
use crate::imports::cat_texts;
use crate::imports::resolve;
use crate::imports::spec_resolve;
use crate::lexer::Lexer;
use crate::lexer::spec_lex;
use crate::parser::Parser;
use crate::parser::SpecProject;
use crate::parser::spec_parse;
use crate::semantic::analyze;
use crate::semantic::spec_analyze;
use crate::paths::canon_path;
use crate::paths::canonical_path;

verus! {

/// The command-line arguments the front end works from: the entry path, an
/// optional output artifact path, the flag that forwards SVG handling to the
/// backend, an optional path for persisting the merged source, and the flag
/// that disables the default backend.
#[derive(Debug)]
pub struct Args {
    pub input: Vec<u8>,
    pub output: Option<Vec<u8>>,
    pub no_svg_scale: bool,
    pub emit_merged: Option<Vec<u8>>,
    pub no_python_backend: bool,
}

/// Which backend a run dispatches to, if any.
#[derive(Debug)]
pub enum BackendChoice {
    /// The default backend process, given the output path and the SVG flag.
    External { output: Vec<u8>, no_svg_scale: bool },
    /// No backend runs.
    Disabled,
}

/// What the caller is to do after validation succeeds.
#[derive(Debug)]
pub struct RunPlan {
    pub emit_merged: Option<Vec<u8>>,
    pub backend: BackendChoice,
}

/// Whether the flag combination is lawful: a run with the backend enabled
/// needs an output path, a run with it disabled must not name one.
pub open spec fn config_ok(no_python_backend: bool, output: Option<Seq<u8>>) -> bool {
    if no_python_backend {
        output is None
    } else {
        output is Some
    }
}

/// The output path as a mathematical value.
pub open spec fn opt_view(o: Option<Vec<u8>>) -> Option<Seq<u8>> {
    match o {
        Some(v) => Some(v@),
        None => None,
    }
}

/// Check the flag configuration and fix the plan of side effects, before
/// any resolution work is spent.
pub fn plan_run(args: &Args) -> (r: Result<RunPlan, Diagnostic>)
    ensures
        args.no_python_backend && args.output is Some ==> (r matches Err(e) && e@.kind
            == SpecDiagKind::ConfigOutputWithoutBackend),
        !args.no_python_backend && args.output is None ==> (r matches Err(e) && e@.kind
            == SpecDiagKind::ConfigMissingOutput),
        config_ok(args.no_python_backend, opt_view(args.output)) ==> (r matches Ok(p) && opt_view(
            p.emit_merged,
        ) == opt_view(args.emit_merged) && (match p.backend {
            BackendChoice::External { output, no_svg_scale } => !args.no_python_backend && (
            args.output matches Some(o) && output@ == o@ && no_svg_scale == args.no_svg_scale),
            BackendChoice::Disabled => args.no_python_backend && args.output is None,
        })),
{
    let emit = match &args.emit_merged {
        Some(p) => Some(crate::clone_bytes(p)),
        None => None,
    };
    if args.no_python_backend {
        match &args.output {
            Some(_) => Err(Diagnostic::ConfigOutputWithoutBackend),
            None => Ok(RunPlan { emit_merged: emit, backend: BackendChoice::Disabled }),
        }
    } else {
        match &args.output {
            Some(o) => Ok(
                RunPlan {
                    emit_merged: emit,
                    backend: BackendChoice::External {
                        output: crate::clone_bytes(o),
                        no_svg_scale: args.no_svg_scale,
                    },
                },
            ),
            None => Err(Diagnostic::ConfigMissingOutput),
        }
    }
}

/// Canonicalize the entry path and demand that it names a known file.
pub fn canonicalize_file(fs: &FsModel, path: &Vec<u8>) -> (r: Result<Vec<u8>, Diagnostic>)
    ensures
        fs@.dom().contains(canon_path(path@)) ==> (r matches Ok(c) && c@ == canon_path(path@)),
        !fs@.dom().contains(canon_path(path@)) ==> (r matches Err(e) && e@.kind
            == (SpecDiagKind::InputNotFound { path: path@ })),
{
    let c = canonical_path(path);
    if fs.contains_path(&c) {
        Ok(c)
    } else {
        Err(Diagnostic::InputNotFound { path: crate::clone_bytes(path) })
    }
}

/// The verdict of validating one merged text: its syntax tree, or the first
/// diagnostic of the lexer, the parser or the semantic analyzer.
pub open spec fn spec_validate(text: Seq<u8>) -> Result<SpecProject, SpecDiagKind> {
    match spec_lex(text) {
        Err(l) => Err(SpecDiagKind::LexFail { line: l }),
        Ok(ts) => match spec_parse(ts) {
            Err(e) => Err(SpecDiagKind::ParseFail { line: e.0, expected: e.1 }),
            Ok(p) => match spec_analyze(p) {
                Err(k) => Err(k),
                Ok(u) => Ok(p),
            },
        },
    }
}

/// Run the merged source through lexer, parser and semantic analyzer, in
/// that order, stopping at the first failure.
pub fn validate_project(source: &Vec<u8>) -> (r: Result<(), Diagnostic>)
    ensures
        match spec_validate(source@) {
            Ok(p) => r is Ok,
            Err(k) => r matches Err(e) && e@.kind == k,
        },
{
    let lexer = Lexer::new(source);
    let tokens = match lexer.tokenize() {
        Ok(ts) => ts,
        Err(e) => {
            return Err(e);
        },
    };
    let parser = Parser::new(tokens);
    let project = match parser.parse_project() {
        Ok(p) => p,
        Err(e) => {
            return Err(e);
        },
    };
    match analyze(&project) {
        Ok(u) => Ok(()),
        Err(e) => Err(e),
    }
}

/// The whole front end on a file set: canonicalize, check configuration,
/// resolve imports, validate; the merged unit and the plan of side effects
/// on success, the first stage's diagnostic otherwise. Configuration errors
/// are reported before resolution starts; validation completes before any
/// backend may be dispatched from the plan.
pub fn compile_front(fs: &FsModel, args: &Args) -> (r: Result<(MergedUnit, RunPlan), Diagnostic>)
    requires
        fs.wf(),
    ensures
        ({
            let canon = canon_path(args.input@);
            &&& (!fs@.dom().contains(canon) ==> (r matches Err(e) && e@.kind
                == (SpecDiagKind::InputNotFound { path: args.input@ })))
            &&& (fs@.dom().contains(canon) && args.no_python_backend && args.output is Some ==> (r
                matches Err(e) && e@.kind == SpecDiagKind::ConfigOutputWithoutBackend))
            &&& (fs@.dom().contains(canon) && !args.no_python_backend && args.output is None ==> (r
                matches Err(e) && e@.kind == SpecDiagKind::ConfigMissingOutput))
            &&& (fs@.dom().contains(canon) && config_ok(
                args.no_python_backend,
                opt_view(args.output),
            ) ==> match spec_resolve(fs@, canon) {
                Resolution::Done { order } => match spec_validate(cat_texts(fs@, order)) {
                    Ok(p) => r matches Ok(ok) && ok.0.order.deep_view() == order && ok.0.text@
                        == cat_texts(fs@, order) && opt_view(ok.1.emit_merged) == opt_view(
                        args.emit_merged,
                    ) && (match ok.1.backend {
                        BackendChoice::External { output, no_svg_scale } =>
                            !args.no_python_backend && (args.output matches Some(o) && output@
                            == o@ && no_svg_scale == args.no_svg_scale),
                        BackendChoice::Disabled => args.no_python_backend && args.output is None,
                    }),
                    Err(k) => r matches Err(e) && e@.kind == k,
                },
                Resolution::CycleHit { chain } => r matches Err(e) && e@.kind
                    == (SpecDiagKind::CycleFound { chain }),
                Resolution::MissingHit { importer, target } => r matches Err(e) && e@.kind
                    == (SpecDiagKind::MissingFile { importer, target }),
            })
        }),
{
    let input = match canonicalize_file(fs, &args.input) {
        Ok(c) => c,
        Err(e) => {
            return Err(e);
        },
    };
    let plan = match plan_run(args) {
        Ok(p) => p,
        Err(e) => {
            return Err(e);
        },
    };
    let merged = match resolve(fs, &input) {
        Ok(mu) => mu,
        Err(e) => {
            return Err(e);
        },
    };
    match validate_project(&merged.text) {
        Ok(u) => Ok((merged, plan)),
        Err(e) => Err(e),
    }
}

} // verus!
