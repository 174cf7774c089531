use minic::codegen::CodegenError;
use minic::compile;
use minic::lexer::LexError;
use minic::types::TypeError;
use minic::CompileError;

#[test]
fn compile_program_to_assembly() {
    let lines = compile("int main(){ return 1 + 2; }").unwrap();
    assert_eq!(lines[0], ".data");
    assert_eq!(lines[4], "main:");
    assert_eq!(lines.last().unwrap(), "    ret");
    let text = lines.join("\n");
    assert!(text.contains("    add t0, t1, t0"));
}

#[test]
fn compile_reports_each_stage() {
    assert!(matches!(compile("int main(){ return @; }"), Err(CompileError::Lex(LexError::InvalidToken(19)))));
    match compile("int main(){ return 1 }") {
        Err(CompileError::Parse(errors)) => assert_eq!(errors.len(), 1),
        _ => panic!("expected a parse error"),
    }
    assert!(matches!(
        compile("int main(){ return y; }"),
        Err(CompileError::Type(TypeError::NotDeclared(ref n))) if n == "y"
    ));
    assert!(matches!(
        compile("int f(){ return 0; }"),
        Err(CompileError::Codegen(CodegenError::MissingMain))
    ));
}
