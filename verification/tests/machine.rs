use bf_interpreter::machine::{BfMachine, BfRuntimeError};
use bf_interpreter::parser::BfParser;

fn create_test_machine(input: &[u8]) -> BfMachine {
    BfMachine::new(30000, input.to_vec(), vec![0; 30000])
}

#[test]
fn hello_world() {
    let mut machine = create_test_machine(&[]);

    let commands = BfParser::parse(
        "++++++++++[>+++++++>++++++++++>+++>+<<<<-]
    >++.>+.+++++++..+++.>++.<<+++++++++++++++.
    >.+++.------.--------.>+.>.",
    )
    .unwrap();
    machine.run(&commands).unwrap();

    let mut result = vec![0; 30000];
    result.extend_from_slice("Hello World!\n".as_bytes());

    assert_eq!(machine.output, result);
}

#[test]
fn fast_hello_world() {
    let mut machine = create_test_machine(&[]);

    let commands = BfParser::parse_compress(
        "++++++++++[>+++++++>++++++++++>+++>+<<<<-]
    >++.>+.+++++++..+++.>++.<<+++++++++++++++.
    >.+++.------.--------.>+.>.",
    )
    .unwrap();
    machine.run(&commands).unwrap();

    let mut result = vec![0; 30000];
    result.extend_from_slice("Hello World!\n".as_bytes());

    assert_eq!(machine.output, result);
}

#[test]
fn clear_cursor_memory() {
    let mut machine = create_test_machine(&[]);
    machine.memory[0] = 10;

    let commands = BfParser::parse("[-]").unwrap();

    assert_eq!(machine.memory[0], 10);

    machine.run(&commands).unwrap();

    assert_eq!(machine.memory[0], 0);
}

#[test]
fn input_and_output() {
    let mut machine = create_test_machine(&['t' as u8]);

    let commands = BfParser::parse(",.").unwrap();
    machine.run(&commands).unwrap();

    let mut result = vec![0; 30000];
    result.extend_from_slice("t".as_bytes());

    assert_eq!(machine.output, result);
}

#[test]
fn run_batch_commands() {
    let mut machine = create_test_machine(&[]);

    let assign_cell_0_to_10 = BfParser::parse("[-]++++++++++").unwrap();
    let move_cell_0_to_cell_1 = BfParser::parse("[>+ <-]").unwrap();
    let clear_cell_1 = BfParser::parse(">[-]").unwrap();

    machine.run(&assign_cell_0_to_10).unwrap();
    assert_eq!(machine.memory[0], 10);

    machine.run(&move_cell_0_to_cell_1).unwrap();
    assert_eq!(machine.memory[0], 0);
    assert_eq!(machine.memory[1], 10);

    machine.run(&clear_cell_1).unwrap();
    assert_eq!(machine.memory[1], 0);
}

#[test]
fn four_by_four() {
    let mut machine = create_test_machine(&[]);

    let commands = BfParser::parse(
        "++++>++++>[-]>[-]>[-]<<<<[->[->+>+<<]>>[-<<+>>]>+<<<<]>>>>[-<<<<+>>>>]<<<<",
    )
    .unwrap();
    machine.run(&commands).unwrap();

    assert_eq!(machine.memory[0], 4);
    assert_eq!(machine.memory[1], 4);
    assert_eq!(machine.memory[2], 16);
}

#[test]
fn pi() {
    let mut machine = create_test_machine(&[]);

    let commands = BfParser::parse(
        ">+++++++++++++++[<+>>>>>>>>++++++++++<<<<<<<-]>+++++[<+++++++++>-]+>>>>>>+[<<+++
            [>>[-<]<[>]<-]>>[>+>]<[<]>]>[[->>>>+<<<<]>>>+++>-]<[<<<<]<<<<<<<<+[->>>>>>>>>>>>
            [<+[->>>>+<<<<]>>>>>]<<<<[>>>>>[<<<<+>>>>-]<<<<<-[<<++++++++++>>-]>>>[<<[<+<<+>>
            >-]<[>+<-]<++<<+>>>>>>-]<<[-]<<-<[->>+<-[>>>]>[[<+>-]>+>>]<<<<<]>[-]>+<<<-[>>+<<
            -]<]<<<<+>>>>>>>>[-]>[<<<+>>>-]<<++++++++++<[->>+<-[>>>]>[[<+>-]>+>>]<<<<<]>[-]>
            +>[<<+<+>>>-]<<<<+<+>>[-[-[-[-[-[-[-[-[-<->[-<+<->>]]]]]]]]]]<[+++++[<<<++++++++
            <++++++++>>>>-]<<<<+<->>>>[>+<<<+++++++++<->>>-]<<<<<[>>+<<-]+<[->-<]>[>>.<<<<[+
            .[-]]>>-]>[>>.<<-]>[-]>[-]>>>[>>[<<<<<<<<+>>>>>>>>-]<<-]]>>[-]<<<[-]<<<<<<<<]+++
            +++++++.",
    )
    .unwrap();
    machine.run(&commands).unwrap();

    let mut result = vec![0; 30000];
    result.extend_from_slice("3.14070455282885\n".as_bytes());

    assert_eq!(machine.output, result);
}

#[test]
fn fast_pi() {
    let mut machine = create_test_machine(&[]);

    let commands = BfParser::parse_compress(
        ">+++++++++++++++[<+>>>>>>>>++++++++++<<<<<<<-]>+++++[<+++++++++>-]+>>>>>>+[<<+++
            [>>[-<]<[>]<-]>>[>+>]<[<]>]>[[->>>>+<<<<]>>>+++>-]<[<<<<]<<<<<<<<+[->>>>>>>>>>>>
            [<+[->>>>+<<<<]>>>>>]<<<<[>>>>>[<<<<+>>>>-]<<<<<-[<<++++++++++>>-]>>>[<<[<+<<+>>
            >-]<[>+<-]<++<<+>>>>>>-]<<[-]<<-<[->>+<-[>>>]>[[<+>-]>+>>]<<<<<]>[-]>+<<<-[>>+<<
            -]<]<<<<+>>>>>>>>[-]>[<<<+>>>-]<<++++++++++<[->>+<-[>>>]>[[<+>-]>+>>]<<<<<]>[-]>
            +>[<<+<+>>>-]<<<<+<+>>[-[-[-[-[-[-[-[-[-<->[-<+<->>]]]]]]]]]]<[+++++[<<<++++++++
            <++++++++>>>>-]<<<<+<->>>>[>+<<<+++++++++<->>>-]<<<<<[>>+<<-]+<[->-<]>[>>.<<<<[+
            .[-]]>>-]>[>>.<<-]>[-]>[-]>>>[>>[<<<<<<<<+>>>>>>>>-]<<-]]>>[-]<<<[-]<<<<<<<<]+++
            +++++++.",
    )
    .unwrap();
    machine.run(&commands).unwrap();

    let mut result = vec![0; 30000];
    result.extend_from_slice("3.14070455282885\n".as_bytes());

    assert_eq!(machine.output, result);
}

#[test]
fn quine() {
    let mut machine = create_test_machine(&[]);

    let commands_literally =
        "-->+++>+>+>+>+++++>++>++>->+++>++>+>>>>>>>>>>>>>>>>->++++>>>>->+++>+++>+++>+++>+++>+++>+>+>>>->->>++++>+>>>>->>++++>+>+>>->->++>++>++>++++>+>++>->++>++++>+>+>++>++>->->++>++>++++>+>+>>>>>->>->>++++>++>++>++++>>>>>->>>>>+++>->++++>->->->+++>>>+>+>+++>+>++++>>+++>->>>>>->>>++++>++>++>+>+++>->++++>>->->+++>+>+++>+>++++>>>+++>->++++>>->->++>++++>++>++++>>++[-[->>+[>]++[<]<]>>+[>]<--[++>++++>]+[<]<<++]>>>[>]++++>++++[--[+>+>++++<<[-->>--<<[->-<[--->>+<<[+>+++<[+>>++<<]]]]]]>+++[>+++++++++++++++<-]>--.<<<]";
    let commands = BfParser::parse(commands_literally).unwrap();
    machine.run(&commands).unwrap();

    let mut result = vec![0; 30000];
    result.extend_from_slice(commands_literally.as_bytes());

    assert_eq!(machine.output, result);
}

#[test]
fn fast_quine() {
    let mut machine = create_test_machine(&[]);

    let commands_literally =
        "-->+++>+>+>+>+++++>++>++>->+++>++>+>>>>>>>>>>>>>>>>->++++>>>>->+++>+++>+++>+++>+++>+++>+>+>>>->->>++++>+>>>>->>++++>+>+>>->->++>++>++>++++>+>++>->++>++++>+>+>++>++>->->++>++>++++>+>+>>>>>->>->>++++>++>++>++++>>>>>->>>>>+++>->++++>->->->+++>>>+>+>+++>+>++++>>+++>->>>>>->>>++++>++>++>+>+++>->++++>>->->+++>+>+++>+>++++>>>+++>->++++>>->->++>++++>++>++++>>++[-[->>+[>]++[<]<]>>+[>]<--[++>++++>]+[<]<<++]>>>[>]++++>++++[--[+>+>++++<<[-->>--<<[->-<[--->>+<<[+>+++<[+>>++<<]]]]]]>+++[>+++++++++++++++<-]>--.<<<]";
    let commands = BfParser::parse_compress(commands_literally).unwrap();
    machine.run(&commands).unwrap();

    let mut result = vec![0; 30000];
    result.extend_from_slice(commands_literally.as_bytes());

    assert_eq!(machine.output, result);
}

#[test]
fn ascii_table() {
    let mut machine = create_test_machine(&[]);

    let commands = BfParser::parse(".+[.+]").unwrap();
    machine.run(&commands).unwrap();

    let mut result = vec![0; 30000];
    for i in 0..256 {
        result.push(i as u8);
    }

    assert_eq!(machine.output, result);
}

#[test]
fn memory_overflow_wrapped() {
    let mut machine = create_test_machine(&[]);

    let code = "<+>";
    let equal_code = format!("{}+>", ">".repeat(machine.memory.len() - 1));
    let overflow_code = ">".repeat(machine.memory.len() * 2);

    let commands = BfParser::parse(&code).unwrap();
    let equal_commands = BfParser::parse_compress(&equal_code).unwrap();
    let overflow_commands = BfParser::parse_compress(&overflow_code).unwrap();

    machine.run(&commands).unwrap();
    assert_eq!(machine.memory[machine.memory.len() - 1], 1);
    machine.run(&equal_commands).unwrap();
    assert_eq!(machine.memory[machine.memory.len() - 1], 2);
    machine.run(&overflow_commands).unwrap();
    assert_eq!(machine.cursor, 0);
}

#[test]
fn clear_leaves_cursor_in_place() {
    // Clearing a cell with a loop ends with the cursor where it started.
    let mut machine = create_test_machine(&[]);
    machine.memory[0] = 10;

    let commands = BfParser::parse("[-]").unwrap();
    machine.run(&commands).unwrap();

    assert_eq!(machine.memory[0], 0);
    assert_eq!(machine.cursor, 0);
}

#[test]
fn cell_wraps_both_ways() {
    // 255 + 1 wraps to 0, and 0 - 1 wraps to 255.
    let mut machine = create_test_machine(&[]);
    machine.memory[0] = 255;

    machine.run(&BfParser::parse("+").unwrap()).unwrap();
    assert_eq!(machine.memory[0], 0);

    machine.run(&BfParser::parse("-").unwrap()).unwrap();
    assert_eq!(machine.memory[0], 255);
}

#[test]
fn cursor_wraps_right_by_full_length() {
    // Moving right by the tape length from the left edge returns there.
    let mut machine = BfMachine::new(5, Vec::new(), Vec::new());
    machine.run(&BfParser::parse(">>>>>").unwrap()).unwrap();
    assert_eq!(machine.cursor, 0);
    // Moving left by one from the left edge lands on the right edge.
    machine.run(&BfParser::parse("<").unwrap()).unwrap();
    assert_eq!(machine.cursor, 4);
}

#[test]
fn reading_past_input_end_fails() {
    let mut machine = create_test_machine(&[b'a']);
    let commands = BfParser::parse(",,").unwrap();
    assert_eq!(machine.run(&commands), Err(BfRuntimeError::EndOfInput));
    // The successful read before the failure stuck.
    assert_eq!(machine.memory[0], b'a');
}

#[test]
fn compressed_execution_matches_plain() {
    // The compressed and the plain token sequences of one source leave a
    // fresh machine in the same state, byte for byte.
    let src = "++[>+++<-]>.<++++[>--<-]>.";
    let input = [b'x'];

    let mut plain = create_test_machine(&input);
    plain.run(&BfParser::parse(src).unwrap()).unwrap();

    let mut fast = create_test_machine(&input);
    fast.run(&BfParser::parse_compress(src).unwrap()).unwrap();

    assert_eq!(plain.memory, fast.memory);
    assert_eq!(plain.cursor, fast.cursor);
    assert_eq!(plain.output, fast.output);
    assert_eq!(plain.input_pos, fast.input_pos);
}

#[test]
fn default_machine_has_conventional_tape() {
    let machine = BfMachine::default();
    assert_eq!(machine.memory.len(), 30000);
    assert_eq!(machine.cursor, 0);
    assert!(machine.memory.iter().all(|&b| b == 0));
    assert_eq!(machine.output.len(), 0);
}
