use rsbf::codegen::{compile_buf, ASM_FOOTER, ASM_HEADER};
use rsbf::interp::{run_buf, RunStatus};
use std::collections::HashMap;

/// Runs the body of a generated program line by line on a tape of 65536
/// cells with a 16-bit pointer, as the preamble sets it up.
fn run_generated(text: &str, input: &[u8], max_lines: usize) -> Option<Vec<u8>> {
    let body = text.strip_prefix(ASM_HEADER).unwrap().strip_suffix(ASM_FOOTER).unwrap();
    let lines: Vec<&str> = body.lines().collect();
    let mut labels = HashMap::new();
    for (k, line) in lines.iter().enumerate() {
        if let Some(name) = line.strip_suffix(':') {
            assert!(labels.insert(name, k).is_none());
        }
    }
    let mut cells = vec![0u8; 65536];
    let mut ptr: u16 = 0;
    let mut zero = false;
    let mut input = input.iter();
    let mut output = Vec::new();
    let mut at = 0;
    for _ in 0..max_lines {
        if at == lines.len() {
            return Some(output);
        }
        let line = lines[at];
        at += 1;
        match line {
            "inc %ax" => ptr = ptr.wrapping_add(1),
            "dec %ax" => ptr = ptr.wrapping_sub(1),
            "incb [cells+%eax]" => cells[ptr as usize] = cells[ptr as usize].wrapping_add(1),
            "decb [cells+%eax]" => cells[ptr as usize] = cells[ptr as usize].wrapping_sub(1),
            "call output" => output.push(cells[ptr as usize]),
            "call input" => cells[ptr as usize] = input.next().copied().unwrap_or(0),
            "test %ecx,[cells+%eax]" => zero = cells[ptr as usize] == 0,
            _ => {
                if let Some(name) = line.strip_prefix("jz ") {
                    if zero {
                        at = labels[name];
                    }
                } else if let Some(name) = line.strip_prefix("jnz ") {
                    if !zero {
                        at = labels[name];
                    }
                } else {
                    assert!(line.is_empty() || labels.contains_key(line.strip_suffix(':').unwrap()));
                }
            }
        }
    }
    None
}

fn both_engines(program: &str, input: &[u8]) -> Vec<u8> {
    let report = run_buf(input, program.as_bytes(), 1_000_000);
    assert_eq!(report.status, RunStatus::Finished);
    let text = compile_buf(program.as_bytes()).unwrap();
    let generated = run_generated(&text, input, 10_000_000).unwrap();
    assert_eq!(generated, report.output);
    generated
}

#[test]
fn both_engines_say_hello() {
    let program = "++++++++[>++++[>++>+++>+++>+<<<<-]>+>+>->>+[<]<-]>>.>---.+++++++..+++.>>.<-.<.+++.------.--------.>>+.>++.\n";
    assert_eq!(both_engines(program, b""), b"Hello World!\n");
}

#[test]
fn both_engines_echo() {
    assert_eq!(both_engines(",[.,]", b"asdf"), b"asdf");
    assert_eq!(both_engines(", [ . , ]\n", b"blah"), b"blah");
    assert_eq!(both_engines(",----------[++++++++++.,----------]", b"one\ntwo"), b"one");
}

#[test]
fn both_engines_skip_and_repeat_loops_alike() {
    assert_eq!(both_engines("[+.]+.[-]+.", b""), vec![1, 1]);
    assert_eq!(both_engines("+++[>++++[>+<-]<-]>>.", b""), vec![12]);
    assert_eq!(both_engines("+[>+[>+[-]<-]<-]>>.", b""), vec![0]);
    assert_eq!(both_engines(">>+[<+>-]<.", b""), vec![1]);
}

#[test]
fn both_engines_wrap_cells_alike() {
    assert_eq!(both_engines("-.+.", b""), vec![255, 0]);
    assert_eq!(both_engines("-[-]+.", b""), vec![1]);
}

#[test]
fn the_engines_differ_only_past_the_ends_of_the_shorter_tape() {
    let mut program = String::from("+");
    program.push_str(&">".repeat(30000));
    program.push('.');
    let report = run_buf(b"", program.as_bytes(), 100_000);
    assert_eq!(report.output, vec![1]);
    let text = compile_buf(program.as_bytes()).unwrap();
    assert_eq!(run_generated(&text, b"", 1_000_000).unwrap(), vec![0]);
}
