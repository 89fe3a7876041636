use rsbf::codegen::{compile_buf, BFCState, CompileError, ASM_FOOTER, ASM_HEADER};

const HEADER_LINES: [&str; 50] = [
    "",
    "        .intel_syntax",
    "        .data",
    "        .comm cells, 65536",
    "        #cells: .fill 65536, 1, 0",
    "        .text",
    "        .global main",
    "",
    "        input:",
    "        push %rax",
    "        push %rbx",
    "        push %rcx",
    "        push %rdx",
    "",
    "        call getchar",
    "",
    "        pop %rdx",
    "        pop %rcx",
    "        pop %rbx",
    "        pop %rax",
    "        mov [cells+%eax], %rsi",
    "",
    "        cmp %esi, -1",
    "        jne input_ret",
    "        movb [cells+%eax], 0",
    "",
    "        input_ret:",
    "        ret",
    "",
    "        output:",
    "        push %rax",
    "        push %rbx",
    "        push %rcx",
    "        push %rdx",
    "",
    "        mov %rdi, [cells+%eax]",
    "        call putchar",
    "",
    "        pop %rdx",
    "        pop %rcx",
    "        pop %rbx",
    "        pop %rax",
    "        ret",
    "",
    "        main:",
    "",
    "        mov %eax, 0",
    "        mov %ecx, 0xFF",
    "",
    "",
];

const FOOTER_LINES: [&str; 6] = [
    "",
    "        exit:",
    "        mov %rbx, 0",
    "        mov %rax, 1",
    "        int 0x80",
    "",
];

const TEST: &str = "test %ecx,[cells+%eax]\n";

fn header() -> String {
    HEADER_LINES.join("\n")
}

fn footer() -> String {
    FOOTER_LINES.join("\n")
}

fn document(body: &str) -> String {
    format!("{}{}{}", header(), body, footer())
}

fn compiled(source: &[u8]) -> String {
    compile_buf(source).unwrap()
}

fn labels_of(text: &str) -> Vec<usize> {
    text.lines()
        .filter(|line| line.starts_with("bf_stmt_") && line.ends_with(':'))
        .map(|line| line["bf_stmt_".len()..line.len() - 1].parse().unwrap())
        .collect()
}

fn targets_of(text: &str) -> Vec<usize> {
    text.lines()
        .filter(|line| line.starts_with("jz bf_stmt_") || line.starts_with("jnz bf_stmt_"))
        .map(|line| line[line.find('_').unwrap() + 6..].parse().unwrap())
        .collect()
}

#[test]
fn the_preamble_is_fixed() {
    assert_eq!(ASM_HEADER, header());
    assert_eq!(BFCState::asm_header(), header());
    assert!(ASM_HEADER.starts_with("\n        .intel_syntax\n        .data\n        .comm cells, 65536\n"));
    assert!(ASM_HEADER.contains("\n        input:\n"));
    assert!(ASM_HEADER.contains("\n        call getchar\n"));
    assert!(ASM_HEADER.contains("\n        movb [cells+%eax], 0\n"));
    assert!(ASM_HEADER.contains("\n        output:\n"));
    assert!(ASM_HEADER.contains("\n        call putchar\n"));
    assert!(ASM_HEADER.ends_with("\n        main:\n\n        mov %eax, 0\n        mov %ecx, 0xFF\n\n"));
    assert_eq!(ASM_HEADER.len(), 731);
}

#[test]
fn the_exit_sequence_is_fixed() {
    assert_eq!(ASM_FOOTER, footer());
    assert_eq!(BFCState::asm_footer(), footer());
    assert_eq!(
        ASM_FOOTER,
        "\n        exit:\n        mov %rbx, 0\n        mov %rax, 1\n        int 0x80\n"
    );
}

#[test]
fn empty_source_gives_one_label() {
    assert_eq!(compiled(b""), document("bf_stmt_0:\n"));
}

#[test]
fn inert_source_gives_one_label() {
    assert_eq!(compiled(b"nothing to see\n"), document("bf_stmt_0:\n"));
}

#[test]
fn one_instruction() {
    assert_eq!(compiled(b"+"), document("bf_stmt_0:\nincb [cells+%eax]\nbf_stmt_1:\n"));
}

#[test]
fn every_plain_instruction() {
    assert_eq!(
        compiled(b"><+-.,"),
        document(
            "bf_stmt_0:\ninc %ax\n\
             bf_stmt_1:\ndec %ax\n\
             bf_stmt_2:\nincb [cells+%eax]\n\
             bf_stmt_3:\ndecb [cells+%eax]\n\
             bf_stmt_4:\ncall output\n\
             bf_stmt_5:\ncall input\n\
             bf_stmt_6:\n"
        )
    );
}

#[test]
fn the_breakpoint_has_a_label_and_no_code() {
    let source = [b'+', 0xb0, b'-'];
    assert_eq!(
        compiled(&source),
        document(
            "bf_stmt_0:\nincb [cells+%eax]\n\
             bf_stmt_1:\n\
             bf_stmt_2:\ndecb [cells+%eax]\n\
             bf_stmt_3:\n"
        )
    );
}

#[test]
fn a_loop_branches_behind_its_brackets() {
    let body = format!(
        "bf_stmt_0:\n{TEST}jz bf_stmt_3\n\
         bf_stmt_1:\ndecb [cells+%eax]\n\
         bf_stmt_2:\n{TEST}jnz bf_stmt_1\n\
         bf_stmt_3:\n"
    );
    assert_eq!(compiled(b"[-]"), document(&body));
}

#[test]
fn an_empty_loop() {
    let body = format!(
        "bf_stmt_0:\n{TEST}jz bf_stmt_2\n\
         bf_stmt_1:\n{TEST}jnz bf_stmt_1\n\
         bf_stmt_2:\n"
    );
    assert_eq!(compiled(b"[]"), document(&body));
}

#[test]
fn nested_loops() {
    let body = format!(
        "bf_stmt_0:\n{TEST}jz bf_stmt_6\n\
         bf_stmt_1:\n{TEST}jz bf_stmt_4\n\
         bf_stmt_2:\ncall output\n\
         bf_stmt_3:\n{TEST}jnz bf_stmt_2\n\
         bf_stmt_4:\ninc %ax\n\
         bf_stmt_5:\n{TEST}jnz bf_stmt_1\n\
         bf_stmt_6:\n"
    );
    assert_eq!(compiled(b"[[.]>]"), document(&body));
}

#[test]
fn a_label_names_the_place_behind_the_previous_instruction() {
    assert_eq!(
        compiled(b"ab+cd-e"),
        document("bf_stmt_0:\nincb [cells+%eax]\nbf_stmt_3:\ndecb [cells+%eax]\nbf_stmt_6:\n")
    );
}

#[test]
fn branches_over_inert_bytes_find_their_labels() {
    let body = format!(
        "bf_stmt_0:\n{TEST}jz bf_stmt_8\n\
         bf_stmt_2:\ndecb [cells+%eax]\n\
         bf_stmt_5:\n{TEST}jnz bf_stmt_2\n\
         bf_stmt_8:\ncall output\n\
         bf_stmt_10:\n"
    );
    assert_eq!(compiled(b" [  -  ] .  \n"), document(&body));
}

#[test]
fn the_closing_label_is_behind_the_last_instruction() {
    let body = format!(
        "bf_stmt_0:\n{TEST}jz bf_stmt_2\n\
         bf_stmt_1:\n{TEST}jnz bf_stmt_1\n\
         bf_stmt_2:\n"
    );
    assert_eq!(compiled(b"[]"), document(&body));
    assert_eq!(compiled(b"[]\n"), document(&body));
    assert_eq!(compiled(b"[]\n\n\n"), document(&body));
}

#[test]
fn labels_are_written_in_decimal() {
    let text = compiled(&[b'+'; 1234]);
    let labels = labels_of(&text);
    assert_eq!(labels, (0..=1234).collect::<Vec<usize>>());
    assert!(text.contains("\nbf_stmt_9:\nincb [cells+%eax]\nbf_stmt_10:\n"));
    assert!(text.contains("\nbf_stmt_99:\nincb [cells+%eax]\nbf_stmt_100:\n"));
    assert!(text.contains("\nbf_stmt_1009:\nincb [cells+%eax]\nbf_stmt_1010:\n"));
    assert!(text.ends_with(&format!("bf_stmt_1234:\n{}", footer())));
}

#[test]
fn a_far_branch_names_its_label_in_decimal() {
    let mut source = vec![b'['];
    source.extend(std::iter::repeat(b'+').take(120));
    source.push(b']');
    let text = compiled(&source);
    assert!(text.contains(&format!("bf_stmt_0:\n{TEST}jz bf_stmt_122\nbf_stmt_1:\n")));
    assert!(text.contains(&format!("bf_stmt_121:\n{TEST}jnz bf_stmt_1\nbf_stmt_122:\n")));
}

#[test]
fn unbalanced_source_is_refused() {
    for source in ["[", "]", "[[]", "[]]", "][", "+[-", "+]-", "[[[]]", "[]][[]", "a[b"] {
        assert_eq!(compile_buf(source.as_bytes()), Err(CompileError::UnbalancedBrackets));
    }
}

#[test]
fn balanced_source_is_compiled() {
    for source in ["", "[]", "[[]]", "[][]", "[[][]][]", "+[-[>]<]", "no brackets"] {
        assert!(compile_buf(source.as_bytes()).is_ok());
    }
}

#[test]
fn one_label_per_instruction_and_one_more() {
    let source = "++++++++[>++++[>++>+++>+++>+<<<<-]>+>+>->>+[<]<-]>>.>---.+++++++..+++.>>.<-.<.+++.------.--------.>>+.>++.\n";
    let text = compiled(source.as_bytes());
    let instructions = source.bytes().filter(|b| b"><+-.,[]".contains(b)).count();
    let labels = labels_of(&text);
    assert_eq!(labels.len(), instructions + 1);
    for pair in labels.windows(2) {
        assert!(pair[0] < pair[1]);
    }
    let targets = targets_of(&text);
    assert_eq!(targets.len(), source.bytes().filter(|b| b"[]".contains(b)).count());
    for target in targets {
        assert!(labels.contains(&target));
    }
}

#[test]
fn every_branch_target_has_a_label_with_comments_around() {
    let source = "read , then [ echo . and read , again ] done";
    let text = compiled(source.as_bytes());
    let labels = labels_of(&text);
    assert_eq!(labels, vec![0, 6, 13, 20, 31, 39]);
    assert_eq!(targets_of(&text), vec![39, 13]);
}

#[test]
fn the_generator_works_step_by_step() {
    let mut state = BFCState::new(b"+[");
    assert_eq!(state.text(), header());
    assert_eq!(state.compile_next(), Ok(true));
    assert_eq!(state.text(), format!("{}bf_stmt_0:\nincb [cells+%eax]\n", header()));
    assert_eq!(state.compile_next(), Err(CompileError::UnbalancedBrackets));
    assert_eq!(state.text(), format!("{}bf_stmt_0:\nincb [cells+%eax]\n", header()));
    assert_eq!(state.compile_next(), Err(CompileError::UnbalancedBrackets));

    let mut state = BFCState::new(b"- \n");
    assert_eq!(state.compile_next(), Ok(true));
    assert_eq!(state.compile_next(), Ok(false));
    assert_eq!(state.compile_next(), Ok(false));
    state.finalize();
    assert_eq!(state.text(), document("bf_stmt_0:\ndecb [cells+%eax]\nbf_stmt_1:\n"));
}
