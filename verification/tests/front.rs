use lorax::driver::{ProcFile, ProcFileKind};
use lorax::error::CompilerError;
use lorax::parser::ast::TokenKind;
use lorax::parser::lexer::tokenize;
use lorax::parser::parse::parse;
use lorax::src::Source;

#[test]
fn tokenize_splits_a_whole_program() {
    let tokens = tokenize("int main(void) { return 0; }").unwrap();
    let kinds: Vec<TokenKind> = tokens.iter().map(|t| t.kind).collect();
    assert_eq!(
        kinds,
        vec![
            TokenKind::Int,
            TokenKind::Identifier,
            TokenKind::LParen,
            TokenKind::Void,
            TokenKind::RParen,
            TokenKind::LBrace,
            TokenKind::Return,
            TokenKind::Constant,
            TokenKind::Semicolon,
            TokenKind::RBrace,
        ]
    );
    assert_eq!(tokens[1].value, "main");
    assert_eq!(tokens[1].offset, 4);
    assert_eq!(tokens[7].value, "0");
}

#[test]
fn tokenize_reports_bad_constants() {
    match tokenize("return 12ab;") {
        Err(CompilerError::Lexer(_, tok)) => {
            assert_eq!(tok.value, "12ab");
            assert!(matches!(tok.kind, TokenKind::Error(_)));
        },
        _ => panic!("a malformed constant must surface as a lexical error"),
    }
}

#[test]
fn tokenize_recovers_offsets_after_whitespace() {
    let tokens = tokenize("  ~\n(").unwrap();
    assert_eq!(tokens[0].kind, TokenKind::Complement);
    assert_eq!(tokens[0].offset, 2);
    assert_eq!(tokens[1].kind, TokenKind::LParen);
    assert_eq!(tokens[1].offset, 4);
}

#[test]
fn tokenize_distinguishes_minus_forms() {
    let tokens = tokenize("-1").unwrap();
    assert_eq!(tokens[0].kind, TokenKind::Negate);
    assert_eq!(tokens[1].kind, TokenKind::Constant);
    assert!(tokenize("-").unwrap().is_empty());
}

#[test]
fn lex_then_parse_round_trips_a_program() {
    let tokens = tokenize("int main(void) { return ~(-3); }").unwrap();
    let program = parse(&tokens).unwrap();
    let lorax::parser::ast::Decl::Function(name, _) = program.body;
    assert_eq!(name, "main");
}

#[test]
fn compiler_errors_render_their_message() {
    let e = CompilerError::ParseError("missing brace".to_string());
    assert_eq!(e.message(), "Parse error: missing brace");
    let e = CompilerError::IoError("no such file".to_string());
    assert_eq!(e.message(), "I/O error: no such file");
}

#[test]
fn source_positions_count_lines_and_columns() {
    let src = Source { text: "int x;\nreturn 0;\n".to_string() };
    let tok = lorax::parser::ast::Token {
        kind: TokenKind::Return,
        value: "return".to_string(),
        offset: 7,
    };
    let span = src.get_span(&tok).unwrap();
    assert_eq!(span.pos.line, 1);
    assert_eq!(span.pos.col, 0);
    assert_eq!(span.len, 6);
    assert_eq!(span.render(), "return 0;\n^^^^^^");
    let far = lorax::parser::ast::Token {
        kind: TokenKind::Return,
        value: "x".to_string(),
        offset: 100,
    };
    assert!(src.get_span(&far).is_none());
}

#[test]
fn proc_files_split_and_rename() {
    let f = ProcFile::from_path("dir/sub/unit.c").unwrap();
    assert_eq!(f.name, "unit");
    assert_eq!(f.path, "dir/sub");
    assert!(f.kind == ProcFileKind::Source);
    assert_eq!(f.get_fn(), "dir/sub/unit.c");
    let renamed = f.to_kind(ProcFileKind::Assembly);
    assert_eq!(renamed.get_fn(), "dir/sub/unit.S");
    assert_eq!(renamed.kind.kind_name(), "Assembly");
    let bare = ProcFile::from_fn("unit.i").unwrap();
    assert_eq!(bare.path, "");
    assert!(bare.kind == ProcFileKind::Preprocessed);
    assert_eq!(bare.get_fn(), "unit.i");
    let plain = ProcFile::from_fn("binary").unwrap();
    assert!(plain.kind == ProcFileKind::Binary);
    assert!(ProcFileKind::from("c") == ProcFileKind::Source);
    assert!(ProcFileKind::from("o") == ProcFileKind::Binary);
}

#[test]
fn proc_files_read_paths_like_the_platform() {
    // trailing separators and `.` components do not hide the file name
    let trailing = ProcFile::from_path("dir/").unwrap();
    assert_eq!(trailing.name, "dir");
    assert_eq!(trailing.path, "");
    let dotted = ProcFile::from_path("dir/.").unwrap();
    assert_eq!(dotted.name, "dir");
    assert_eq!(dotted.path, "");
    // nothing left, or a parent step: no file is named
    assert!(ProcFile::from_path("").is_none());
    assert!(ProcFile::from_path(".").is_none());
    assert!(ProcFile::from_path("..").is_none());
    assert!(ProcFile::from_path("dir/..").is_none());
    assert!(ProcFile::from_path("/").is_none());
    // the root directory survives in the parent, without doubled slashes
    let abs = ProcFile::from_path("/unit.c").unwrap();
    assert_eq!(abs.path, "/");
    assert_eq!(abs.get_fn(), "/unit.c");
    let deep = ProcFile::from_path("/tmp/unit.S").unwrap();
    assert_eq!(deep.path, "/tmp");
    assert!(deep.kind == ProcFileKind::Assembly);
    assert_eq!(deep.get_fn(), "/tmp/unit.S");
    // redundant separators collapse out of the parent
    let doubled = ProcFile::from_path("a//b.i").unwrap();
    assert_eq!(doubled.path, "a");
    assert_eq!(doubled.name, "b");
}
