use minic::codegen::{Codegen, CodegenError};
use minic::parser::parse;
use minic::sema::lower;
use minic::types::{Type, TypeChecker};

fn compile(source: &str) -> Result<Vec<String>, CodegenError> {
    let tree = parse(source).unwrap();
    let mut checker = TypeChecker::new();
    let typed = checker
        .check_result(&tree)
        .unwrap_or_else(|e| panic!("{}", e.message()));
    let lowered = lower(typed);
    let mut codegen = Codegen::new(checker.globals().clone(), checker.strings().clone());
    codegen.generate_result(&lowered)?;
    Ok(codegen.output().clone())
}

#[test]
fn generate_return_constant() {
    let lines = compile("int main(){ return 42; }").unwrap();
    let expected = vec![
        ".data",
        ".align 4",
        ".text",
        ".globl main",
        "main:",
        "    addi sp, sp, -16",
        "    sd ra, 8(sp)",
        "    sd fp, 0(sp)",
        "    addi fp, sp, 0",
        "    li t0, -0",
        "    add sp, sp, t0",
        "    li t0, 42",
        "    addi sp, sp, -8",
        "    sd t0, 0(sp)",
        "    ld a0, 0(sp)",
        "    addi sp, sp, 8",
        "    li t0, 0",
        "    add sp, sp, t0",
        "    ld ra, 8(sp)",
        "    ld fp, 0(sp)",
        "    addi sp, sp, 16",
        "    ret",
        "    li t0, 0",
        "    add sp, sp, t0",
        "    ld ra, 8(sp)",
        "    ld fp, 0(sp)",
        "    addi sp, sp, 16",
        "    ret",
    ];
    assert_eq!(lines, expected);
}

#[test]
fn generate_data_section_for_globals_and_strings() {
    let lines = compile("int g; char buf[10]; int main(){ \"hi\"; return g; }").unwrap();
    assert_eq!(
        &lines[..10],
        &[
            ".data",
            ".align 4",
            "g:",
            "    .space 4",
            "buf:",
            "    .space 10",
            "LC0:",
            "    .ascii \"hi\"",
            ".text",
            ".globl main",
        ]
    );
    assert!(lines.contains(&"    la t0, g".to_string()));
    assert!(lines.contains(&"    lw t0, 0(t2)".to_string()));
    assert!(lines.contains(&"    la t0, LC0".to_string()));
}

#[test]
fn generate_frame_is_rounded_to_sixteen() {
    let lines = compile("int main(){ int a; char c; return a; }").unwrap();
    assert!(lines.contains(&"    li t0, -16".to_string()));
    let lines = compile("int main(){ int a[5]; return 0; }").unwrap();
    assert!(lines.contains(&"    li t0, -32".to_string()));
}

#[test]
fn generate_locals_loads_and_stores() {
    let lines = compile("int main(){ int x; x = 3; return x; }").unwrap();
    let text = lines.join("\n");
    assert!(text.contains("    li t1, -4\n    add t0, fp, t1"));
    assert!(text.contains("    li t2, 0\n    add t2, t2, t0\n    sw t1, 0(t2)"));
    assert!(text.contains("    li t2, -4\n    add t2, t2, fp\n    lw t0, 0(t2)"));
}

#[test]
fn generate_pointer_arithmetic_scales() {
    let lines = compile("int main(){ int *p; return *(p + 2); }").unwrap();
    let text = lines.join("\n");
    assert!(text.contains("    li t2, 4\n    mul t1, t1, t2\n    add t0, t0, t1"));
    assert!(text.contains("    ld t0, 0(t2)"));
}

#[test]
fn generate_control_flow_labels() {
    let lines = compile("int main(){ int i; while (i < 3) i = i + 1; if (i) return 1; else return 2; }")
        .unwrap();
    for label in ["Begin0:", "End0:", "Else1:", "End1:"] {
        assert!(lines.contains(&label.to_string()), "missing {}", label);
    }
    assert!(lines.contains(&"    beq t0, x0, End0".to_string()));
    assert!(lines.contains(&"    jal x0, Begin0".to_string()));
    assert!(lines.contains(&"    beq t0, x0, Else1".to_string()));
    assert!(lines.contains(&"    jal x0, End1".to_string()));
}

#[test]
fn generate_calls_pass_arguments_in_registers() {
    let lines = compile("int add(int a, int b){ return a + b; } int main(){ return add(1, 2); }").unwrap();
    let text = lines.join("\n");
    assert!(text.contains("add:"));
    assert!(text.contains("    sw a0, 0(t2)"));
    assert!(text.contains("    sw a1, 0(t2)"));
    assert!(text.contains("    ld a1, 0(sp)\n    addi sp, sp, 8\n    ld a0, 0(sp)\n    addi sp, sp, 8\n    call add"));
}

#[test]
fn generate_comparisons() {
    let lines = compile("int main(){ return 1 <= 2; }").unwrap();
    let text = lines.join("\n");
    assert!(text.contains("    slt t0, t1, t0\n    xori t0, t0, 1"));
    let lines = compile("int main(){ return 1 != 2; }").unwrap();
    let text = lines.join("\n");
    assert!(text.contains("    sub t0, t1, t0\n    snez t0, t0"));
}

#[test]
fn generate_errors() {
    let e = compile("int f(){ return 0; }").unwrap_err();
    assert!(matches!(e, CodegenError::MissingMain));
    assert_eq!(e.message(), "main function is missing");

    let e = compile(
        "int f(int a, int b, int c, int d, int e, int f, int g, int h, int i){ return 0; } int main(){ return 0; }",
    )
    .unwrap_err();
    assert!(matches!(&e, CodegenError::TooManyParams(n) if n == "f"));
    assert_eq!(e.message(), "Too much params: f");
}

fn count(lines: &[String], line: &str) -> usize {
    lines.iter().filter(|l| l.as_str() == line).count()
}

#[test]
fn generate_pushes_and_pops_balance() {
    for source in [
        "int main(){ return 1 + 2 * 3; }",
        "int f(int a, int b){ return a - b; } int main(){ int x; x = f(4, 2); if (x < 3) x = x + 1; return x; }",
        "int main(){ int *p; int a[3]; for (p = a; p < a + 3; p = p + 1) *p = 0; while (0) {} return a[1]; }",
    ] {
        let lines = compile(source).unwrap();
        assert_eq!(
            count(&lines, "    addi sp, sp, -8"),
            count(&lines, "    addi sp, sp, 8"),
            "unbalanced stack in {}",
            source
        );
        assert!(count(&lines, "    addi sp, sp, -8") > 0);
    }
}

#[test]
fn generate_on_a_valid_program_writes_what_generate_result_writes() {
    let source = "int g; int f(int a){ return a * 2; } int main(){ g = f(3); return g; }";
    let expected = compile(source).unwrap();
    let tree = parse(source).unwrap();
    let mut checker = TypeChecker::new();
    let typed = checker.check(&tree);
    let lowered = lower(typed);
    let mut codegen = Codegen::new(checker.globals().clone(), checker.strings().clone());
    codegen.generate(&lowered);
    assert_eq!(codegen.output(), &expected);
    assert_eq!(codegen.output()[0], ".data");
    assert!(codegen.output().iter().any(|l| l == "f:"));
    assert!(codegen.output().iter().any(|l| l == "main:"));
}

#[test]
fn locals_take_slots_one_below_another() {
    let lines = compile("int main(){ int a; char b; int *p; a = 1; b = 2; p = &a; return a; }").unwrap();
    let at = |off: &str| {
        lines
            .iter()
            .any(|l| *l == format!("    li t1, {}", off) || *l == format!("    li t2, {}", off))
    };
    assert!(lines.iter().any(|l| l == "    li t0, -16"));
    assert!(at("-4"));
    assert!(at("-5"));
    assert!(at("-13"));
    assert!(!at("-8"));
    assert!(!at("-12"));
}

#[test]
fn each_label_line_is_written_once_and_every_jump_lands() {
    let lines = compile(
        "int main(){ int i; int s; s = 0; for (i = 0; i < 3; i = i + 1) { if (i < 1) s = s + 1; else s = s + 2; while (0) {} } if (s) s = 1; return s; }",
    )
    .unwrap();
    let labels: Vec<&String> = lines
        .iter()
        .filter(|l| l.starts_with("Else") || l.starts_with("End") || l.starts_with("Begin"))
        .collect();
    let mut expected = vec!["Begin0:", "Else1:", "End1:", "Begin2:", "End2:", "End0:", "Else3:"];
    let mut got: Vec<&str> = labels.iter().map(|l| l.as_str()).collect();
    assert_eq!(got, expected);
    got.sort();
    expected.sort();
    got.dedup();
    assert_eq!(got, expected);
    for l in &lines {
        let target = l
            .strip_prefix("    beq t0, x0, ")
            .or_else(|| l.strip_prefix("    jal x0, "));
        if let Some(t) = target {
            assert!(lines.contains(&format!("{}:", t)), "jump to {} lands nowhere", t);
        }
    }
}

#[test]
fn push_pop_and_frame_room() {
    let checker = TypeChecker::new();
    let mut codegen = Codegen::new(checker.globals().clone(), checker.strings().clone());
    codegen.push("t0");
    codegen.pop("t1");
    assert_eq!(
        codegen.output(),
        &vec![
            "    addi sp, sp, -8".to_string(),
            "    sd t0, 0(sp)".to_string(),
            "    ld t1, 0(sp)".to_string(),
            "    addi sp, sp, 8".to_string(),
        ]
    );
    let a = vec![Type::Int, Type::Char, Type::Array(Box::new(Type::Int), 3)];
    let b = vec![Type::Array(Box::new(Type::Int), 3), Type::Int, Type::Char];
    assert_eq!(Codegen::get_frame_size(&a).unwrap(), 17);
    assert_eq!(Codegen::get_frame_size(&b).unwrap(), 17);
    assert_eq!(Codegen::get_frame_size(&vec![]).unwrap(), 0);
}
