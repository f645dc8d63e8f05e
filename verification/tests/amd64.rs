use sexpc::amd64::{Inst, BB};

#[test]
fn code_to_text() {
    let inst = Inst::new(
        String::from("mov"),
        vec![String::from("$42"), String::from("%rax")],
    );
    assert_eq!(inst.name, "mov");
    assert_eq!(inst.args, vec!["$42", "%rax"]);
    assert_eq!(inst.to_string(), "  mov $42, %rax");
}

#[test]
fn inst_text_by_operand_count() {
    assert_eq!(Inst::new(String::from("ret"), vec![]).to_string(), "  ret ");
    assert_eq!(
        Inst::new(String::from("push"), vec![String::from("%rbp")]).to_string(),
        "  push %rbp"
    );
    let three = Inst::new(
        String::from("imul"),
        vec![String::from("$3"), String::from("%rax"), String::from("%rcx")],
    );
    assert_eq!(three.to_string(), "  imul $3, %rax, %rcx");
}

#[test]
fn block_text_has_label_and_lines() {
    let block = BB {
        label: String::from("start"),
        insts: vec![
            Inst::new(String::from("mov"), vec![String::from("%rdi"), String::from("%rax")]),
            Inst::new(String::from("ret"), vec![]),
        ],
    };
    assert_eq!(block.to_string(), "start:\n  mov %rdi, %rax\n  ret \n");
    let empty = BB { label: String::from("e"), insts: vec![] };
    assert_eq!(empty.to_string(), "e:\n");
}
