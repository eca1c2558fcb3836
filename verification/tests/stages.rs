use sbtext::errors::Diagnostic;
use sbtext::errors::Expectation;
use sbtext::lexer::Lexer;
use sbtext::parser::Parser;
use sbtext::semantic::analyze;
use sbtext::pipeline::validate_project;

fn toks(src: &str) -> Vec<sbtext::lexer::Token> {
    Lexer::new(&src.as_bytes().to_vec()).tokenize().unwrap()
}

#[test]
fn lexer_splits_words_and_counts_lines() {
    let ts = toks("script main\n  go\nend\n");
    let words: Vec<Vec<u8>> = ts.iter().map(|t| t.text.clone()).collect();
    assert_eq!(
        words,
        vec![
            b"script".to_vec(),
            b"main".to_vec(),
            b"go".to_vec(),
            b"end".to_vec(),
        ]
    );
    let lines: Vec<usize> = ts.iter().map(|t| t.line).collect();
    assert_eq!(lines, vec![1, 1, 2, 3]);
}

#[test]
fn lexer_rejects_a_foreign_byte_with_its_line() {
    let lexer = Lexer::new(&b"script main\n@\nend\n".to_vec());
    match lexer.tokenize() {
        Err(Diagnostic::LexFail { line }) => assert_eq!(line, 2),
        other => panic!("expected a lex failure, got {:?}", other),
    }
}

#[test]
fn parser_builds_scripts_and_imports() {
    let p = Parser::new(toks("import lib.sbt\nscript main\nhelper\nend\nscript helper\nend\n"))
        .parse_project()
        .unwrap();
    assert_eq!(p.imports, vec![b"lib.sbt".to_vec()]);
    assert_eq!(p.scripts.len(), 2);
    assert_eq!(p.scripts[0].name, b"main".to_vec());
    assert_eq!(p.scripts[0].body, vec![b"helper".to_vec()]);
    assert_eq!(p.scripts[1].name, b"helper".to_vec());
    assert!(p.scripts[1].body.is_empty());
}

#[test]
fn parser_wants_a_path_after_the_import_keyword() {
    match Parser::new(toks("import\n")).parse_project() {
        Err(Diagnostic::ParseFail { line, expected }) => {
            assert_eq!(line, 1);
            assert_eq!(expected, Expectation::PathAfterImport);
        }
        other => panic!("expected a parse failure, got {:?}", other),
    }
}

#[test]
fn parser_wants_a_name_after_the_script_keyword() {
    match Parser::new(toks("script\n")).parse_project() {
        Err(Diagnostic::ParseFail { line, expected }) => {
            assert_eq!(line, 1);
            assert_eq!(expected, Expectation::NameAfterScript);
        }
        other => panic!("expected a parse failure, got {:?}", other),
    }
}

#[test]
fn parser_rejects_a_stray_word_at_top_level() {
    match Parser::new(toks("stray\n")).parse_project() {
        Err(Diagnostic::ParseFail { line, expected }) => {
            assert_eq!(line, 1);
            assert_eq!(expected, Expectation::Decl);
        }
        other => panic!("expected a parse failure, got {:?}", other),
    }
}

#[test]
fn parser_rejects_an_unterminated_script() {
    match Parser::new(toks("script main\ngo\n")).parse_project() {
        Err(Diagnostic::ParseFail { line, expected }) => {
            assert_eq!(line, 2);
            assert_eq!(expected, Expectation::StmtOrEnd);
        }
        other => panic!("expected a parse failure, got {:?}", other),
    }
}

#[test]
fn semantic_rejects_duplicate_script_names() {
    let p = Parser::new(toks("script twice\nend\nscript twice\nend\n"))
        .parse_project()
        .unwrap();
    match analyze(&p) {
        Err(Diagnostic::DuplicateScript { name }) => assert_eq!(name, b"twice".to_vec()),
        other => panic!("expected a duplicate report, got {:?}", other),
    }
}

#[test]
fn semantic_rejects_an_unresolved_call() {
    let p = Parser::new(toks("script main\nnowhere\nend\n"))
        .parse_project()
        .unwrap();
    match analyze(&p) {
        Err(Diagnostic::UnresolvedName { name }) => assert_eq!(name, b"nowhere".to_vec()),
        other => panic!("expected an unresolved report, got {:?}", other),
    }
}

#[test]
fn validation_runs_the_stages_in_order() {
    assert!(validate_project(&b"script main\nend\n".to_vec()).is_ok());
    assert!(matches!(
        validate_project(&b"!\n".to_vec()),
        Err(Diagnostic::LexFail { line: 1 })
    ));
    assert!(matches!(
        validate_project(&b"stray\n".to_vec()),
        Err(Diagnostic::ParseFail { .. })
    ));
    assert!(matches!(
        validate_project(&b"script main\nghost\nend\n".to_vec()),
        Err(Diagnostic::UnresolvedName { .. })
    ));
}
