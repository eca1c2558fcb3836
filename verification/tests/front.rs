use sbtext::errors::Diagnostic;
use sbtext::fsmodel::FsModel;
use sbtext::imports::resolve;
use sbtext::pipeline::Args;
use sbtext::pipeline::BackendChoice;
use sbtext::pipeline::canonicalize_file;
use sbtext::pipeline::compile_front;
use sbtext::pipeline::plan_run;
use sbtext::pipeline::validate_project;

fn fs_of(files: &[(&str, &str)]) -> FsModel {
    let mut fs = FsModel::new();
    for (p, t) in files {
        assert!(!fs.contains_path(&p.as_bytes().to_vec()));
        fs.add_file(p.as_bytes().to_vec(), t.as_bytes().to_vec());
    }
    fs
}

fn args_for(input: &str, output: Option<&str>, emit: Option<&str>, no_backend: bool) -> Args {
    Args {
        input: input.as_bytes().to_vec(),
        output: output.map(|o| o.as_bytes().to_vec()),
        no_svg_scale: false,
        emit_merged: emit.map(|e| e.as_bytes().to_vec()),
        no_python_backend: no_backend,
    }
}

#[test]
fn single_file_merges_to_its_own_content() {
    let text = "script main\nend\n";
    let fs = fs_of(&[("/proj/main.sbt", text)]);
    let mu = resolve(&fs, &b"/proj/main.sbt".to_vec()).unwrap();
    assert_eq!(mu.text, text.as_bytes().to_vec());
    assert_eq!(mu.order, vec![b"/proj/main.sbt".to_vec()]);
    assert_eq!(mu.offsets, vec![0]);
    let out = compile_front(&fs, &args_for("/proj/main.sbt", Some("/out.sb3"), None, false));
    let (mu2, plan) = out.unwrap();
    assert_eq!(mu2.text, text.as_bytes().to_vec());
    match plan.backend {
        BackendChoice::External { output, no_svg_scale } => {
            assert_eq!(output, b"/out.sb3".to_vec());
            assert!(!no_svg_scale);
        }
        BackendChoice::Disabled => panic!("backend should be selected"),
    }
}

#[test]
fn mutual_import_cycle_names_both_files() {
    let fs = fs_of(&[
        ("/p/a.sbt", "import b.sbt\nscript main\nend\n"),
        ("/p/b.sbt", "import a.sbt\nscript other\nend\n"),
    ]);
    match resolve(&fs, &b"/p/a.sbt".to_vec()) {
        Err(Diagnostic::CycleFound { chain }) => {
            assert_eq!(chain, vec![b"/p/a.sbt".to_vec(), b"/p/b.sbt".to_vec()]);
        }
        other => panic!("expected a cycle report, got {:?}", other),
    }
}

#[test]
fn self_import_is_a_cycle_of_one() {
    let fs = fs_of(&[("/p/a.sbt", "import a.sbt\nscript main\nend\n")]);
    match resolve(&fs, &b"/p/a.sbt".to_vec()) {
        Err(Diagnostic::CycleFound { chain }) => {
            assert_eq!(chain, vec![b"/p/a.sbt".to_vec()]);
        }
        other => panic!("expected a cycle report, got {:?}", other),
    }
}

#[test]
fn missing_import_names_importer_and_target() {
    let fs = fs_of(&[("/p/a.sbt", "import lib/util.sbt\nscript main\nend\n")]);
    match resolve(&fs, &b"/p/a.sbt".to_vec()) {
        Err(Diagnostic::MissingFile { importer, target }) => {
            assert_eq!(importer, b"/p/a.sbt".to_vec());
            assert_eq!(target, b"/p/lib/util.sbt".to_vec());
        }
        other => panic!("expected a missing-file report, got {:?}", other),
    }
}

#[test]
fn unknown_entry_is_input_not_found() {
    let fs = fs_of(&[("/p/a.sbt", "script main\nend\n")]);
    match resolve(&fs, &b"/p/missing.sbt".to_vec()) {
        Err(Diagnostic::InputNotFound { path }) => {
            assert_eq!(path, b"/p/missing.sbt".to_vec());
        }
        other => panic!("expected input-not-found, got {:?}", other),
    }
}

#[test]
fn diamond_import_appears_once_before_both_importers() {
    let d = "script dlib\nend\n";
    let b = "import d.sbt\nscript bscr\ndlib\nend\n";
    let c = "import d.sbt\nscript cscr\ndlib\nend\n";
    let a = "import b.sbt\nimport c.sbt\nscript main\nbscr\ncscr\nend\n";
    let fs = fs_of(&[("/p/a.sbt", a), ("/p/b.sbt", b), ("/p/c.sbt", c), ("/p/d.sbt", d)]);
    let mu = resolve(&fs, &b"/p/a.sbt".to_vec()).unwrap();
    assert_eq!(
        mu.order,
        vec![
            b"/p/d.sbt".to_vec(),
            b"/p/b.sbt".to_vec(),
            b"/p/c.sbt".to_vec(),
            b"/p/a.sbt".to_vec(),
        ]
    );
    let expected = format!("{}{}{}{}", d, b, c, a);
    assert_eq!(mu.text, expected.as_bytes().to_vec());
    assert_eq!(
        mu.offsets,
        vec![0, d.len(), d.len() + b.len(), d.len() + b.len() + c.len()]
    );
    assert!(validate_project(&mu.text).is_ok());
}

#[test]
fn resolution_is_deterministic_across_runs() {
    let files = [
        ("/p/a.sbt", "import b.sbt\nimport c.sbt\nscript main\nend\n"),
        ("/p/b.sbt", "import c.sbt\nscript bb\nend\n"),
        ("/p/c.sbt", "script cc\nend\n"),
    ];
    let fs1 = fs_of(&files);
    let fs2 = fs_of(&files);
    let m1 = resolve(&fs1, &b"/p/a.sbt".to_vec()).unwrap();
    let m2 = resolve(&fs2, &b"/p/a.sbt".to_vec()).unwrap();
    assert_eq!(m1.text, m2.text);
    assert_eq!(m1.order, m2.order);
    assert_eq!(m1.offsets, m2.offsets);
}

#[test]
fn merged_output_revalidates_to_the_same_verdict() {
    let fs = fs_of(&[
        ("/p/a.sbt", "import b.sbt\nscript main\nbb\nend\n"),
        ("/p/b.sbt", "script bb\nend\n"),
    ]);
    let mu = resolve(&fs, &b"/p/a.sbt".to_vec()).unwrap();
    // feeding the persisted merged text back through the validation stages
    // stands alone: it parses and passes again
    assert!(validate_project(&mu.text).is_ok());
    let again = resolve(&fs, &b"/p/a.sbt".to_vec()).unwrap();
    assert_eq!(mu.text, again.text);
}

#[test]
fn emit_with_disabled_backend_and_no_output_succeeds() {
    let fs = fs_of(&[("/p/a.sbt", "script main\nend\n")]);
    let out = compile_front(&fs, &args_for("/p/a.sbt", None, Some("/tmp/merged.sbt"), true));
    let (mu, plan) = out.unwrap();
    assert_eq!(mu.text, b"script main\nend\n".to_vec());
    assert_eq!(plan.emit_merged, Some(b"/tmp/merged.sbt".to_vec()));
    assert!(matches!(plan.backend, BackendChoice::Disabled));
}

#[test]
fn backend_without_output_is_a_config_error_before_resolution() {
    // the entry imports a missing file, but the configuration error wins:
    // it is reported before resolution work is spent
    let fs = fs_of(&[("/p/a.sbt", "import gone.sbt\nscript main\nend\n")]);
    let out = compile_front(&fs, &args_for("/p/a.sbt", None, None, false));
    match out {
        Err(Diagnostic::ConfigMissingOutput) => {}
        other => panic!("expected the missing-output config error, got {:?}", other),
    }
}

#[test]
fn output_with_disabled_backend_is_a_config_error() {
    let fs = fs_of(&[("/p/a.sbt", "script main\nend\n")]);
    let out = compile_front(&fs, &args_for("/p/a.sbt", Some("/out.sb3"), None, true));
    match out {
        Err(Diagnostic::ConfigOutputWithoutBackend) => {}
        other => panic!("expected the conflicting-flags config error, got {:?}", other),
    }
}

#[test]
fn plan_keeps_the_svg_flag() {
    let mut args = args_for("/p/a.sbt", Some("/out.sb3"), None, false);
    args.no_svg_scale = true;
    let plan = plan_run(&args).unwrap();
    match plan.backend {
        BackendChoice::External { output, no_svg_scale } => {
            assert_eq!(output, b"/out.sb3".to_vec());
            assert!(no_svg_scale);
        }
        BackendChoice::Disabled => panic!("backend should be selected"),
    }
}

#[test]
fn canonicalization_folds_dot_and_dotdot_segments() {
    let fs = fs_of(&[("/proj/main.sbt", "script main\nend\n")]);
    let c = canonicalize_file(&fs, &b"/proj/./x/../main.sbt".to_vec()).unwrap();
    assert_eq!(c, b"/proj/main.sbt".to_vec());
    match canonicalize_file(&fs, &b"/proj/gone.sbt".to_vec()) {
        Err(Diagnostic::InputNotFound { path }) => assert_eq!(path, b"/proj/gone.sbt".to_vec()),
        other => panic!("expected input-not-found, got {:?}", other),
    }
}

#[test]
fn relative_imports_resolve_against_the_importing_file() {
    let fs = fs_of(&[
        ("/p/sub/a.sbt", "import ../lib/u.sbt\nscript main\nuu\nend\n"),
        ("/p/lib/u.sbt", "script uu\nend\n"),
    ]);
    let mu = resolve(&fs, &b"/p/sub/a.sbt".to_vec()).unwrap();
    assert_eq!(
        mu.order,
        vec![b"/p/lib/u.sbt".to_vec(), b"/p/sub/a.sbt".to_vec()]
    );
}
