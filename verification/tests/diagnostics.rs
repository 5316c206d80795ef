use typstuml::diagnostics::{CompatMode, Diagnostic, Error, Level};

#[test]
fn compat_mode_defaults_to_warn() {
    assert_eq!(CompatMode::default(), CompatMode::Warn);
}

#[test]
fn constructors_fill_level_line_and_message() {
    let d = Diagnostic::new(Level::Warning, Some(3), "m".to_string());
    assert_eq!(d.level, Level::Warning);
    assert_eq!(d.line, Some(3));
    assert_eq!(d.path, None);
    assert_eq!(d.column, None);
    assert_eq!(d.message, "m");
    assert!(d.hints.is_empty());

    let w = Diagnostic::warning("w".to_string());
    assert_eq!((w.level, w.line), (Level::Warning, None));
    let w = Diagnostic::warning_at(7, "w".to_string());
    assert_eq!((w.level, w.line), (Level::Warning, Some(7)));
    let e = Diagnostic::error("e".to_string());
    assert_eq!((e.level, e.line), (Level::Error, None));
    let e = Diagnostic::error_at(9, "e".to_string());
    assert_eq!((e.level, e.line, e.message.as_str()), (Level::Error, Some(9), "e"));
}

#[test]
fn rendering_uses_the_most_precise_location() {
    let mut d = Diagnostic::error("bad".to_string());
    assert_eq!(d.to_text(), "error: bad");
    d.line = Some(12);
    assert_eq!(d.to_text(), "error (line 12): bad");
    d.path = Some("a.puml".to_string());
    assert_eq!(d.to_text(), "error (a.puml:12): bad");
    d.column = Some(4);
    assert_eq!(d.to_text(), "error (a.puml:12:4): bad");
    d.line = None;
    assert_eq!(d.to_text(), "error: bad");
    let w = Diagnostic::warning_at(0, "x".to_string());
    assert_eq!(w.to_text(), "warning (line 0): x");
}

#[test]
fn error_messages() {
    let e = Error::Io { path: "in.puml".to_string(), source: "not found".to_string() };
    assert_eq!(e.to_text(), "I/O error on in.puml: not found");
    let e = Error::Parse { line: 42, message: "unexpected".to_string() };
    assert_eq!(e.to_text(), "parse error at line 42: unexpected");
    let e = Error::Unsupported { kind: "arrow", detail: "<->".to_string() };
    assert_eq!(e.to_text(), "unsupported arrow: <->");
    let e = Error::TypstCompile { message: "boom".to_string(), diagnostics: Vec::new() };
    assert_eq!(e.to_text(), "Typst compilation failed:\nboom");
    assert_eq!(Error::Cli("no input".to_string()).to_text(), "invalid CLI usage: no input");
    assert_eq!(
        Error::MeasureProtocol("missing probe".to_string()).to_text(),
        "measure protocol violation: missing probe"
    );
}

#[test]
fn typst_errors_keep_their_diagnostics() {
    let mut inner = Diagnostic::warning_at(5, "careful".to_string());
    inner.path = Some("x.typ".to_string());
    inner.hints.push("try this".to_string());
    let e = Error::TypstCompile { message: "m".to_string(), diagnostics: vec![inner.clone()] };
    assert_eq!(e.to_diagnostics(), vec![inner]);
}

#[test]
fn parse_errors_become_one_error_at_their_line() {
    let e = Error::Parse { line: 8, message: "oops".to_string() };
    assert_eq!(e.to_diagnostics(), vec![Diagnostic::error_at(8, "oops".to_string())]);
}

#[test]
fn other_errors_become_one_error_with_their_message() {
    let e = Error::Cli("bad flag".to_string());
    assert_eq!(e.to_diagnostics(), vec![Diagnostic::error("invalid CLI usage: bad flag".to_string())]);
    let e = Error::Io { path: "p".to_string(), source: "denied".to_string() };
    let ds = e.to_diagnostics();
    assert_eq!(ds.len(), 1);
    assert_eq!(ds[0].message, "I/O error on p: denied");
    assert_eq!(ds[0].line, None);
}
