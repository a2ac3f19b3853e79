use cache_sim::instruction::{parse_file, parse_line, OPCODE};

#[test]
fn loads_parse_with_an_address() {
    let i = parse_line("lw 12");
    assert_eq!(i.opcode, OPCODE::LW);
    assert_eq!(i.addr, 12);
    assert_eq!(i.value, [0, 0, 0, 0]);
    assert_eq!(parse_line("lh 7").opcode, OPCODE::LH);
    assert_eq!(parse_line("lb 7").opcode, OPCODE::LB);
}

#[test]
fn stores_parse_their_value_most_significant_byte_first() {
    let i = parse_line("sw 10 255");
    assert_eq!(i.opcode, OPCODE::SW);
    assert_eq!(i.addr, 10);
    assert_eq!(i.value, [0, 0, 0, 255]);
    let i = parse_line("sh 3 16909060");
    assert_eq!(i.opcode, OPCODE::SH);
    assert_eq!(i.value, [1, 2, 3, 4]);
    let i = parse_line("sb 1 4294967295");
    assert_eq!(i.opcode, OPCODE::SB);
    assert_eq!(i.value, [255, 255, 255, 255]);
}

#[test]
fn a_load_ignores_its_value_field() {
    let i = parse_line("lw 4 99");
    assert_eq!(i.addr, 4);
    assert_eq!(i.value, [0, 0, 0, 0]);
}

#[test]
fn missing_fields_read_as_zero() {
    let i = parse_line("sw");
    assert_eq!(i.opcode, OPCODE::SW);
    assert_eq!(i.addr, 0);
    assert_eq!(i.value, [0, 0, 0, 0]);
    let i = parse_line("sw 8");
    assert_eq!(i.addr, 8);
    assert_eq!(i.value, [0, 0, 0, 0]);
}

#[test]
fn nop_and_unknown_words() {
    let i = parse_line("nop");
    assert_eq!(i.opcode, OPCODE::NOP);
    assert_eq!(i.addr, 0);
    let i = parse_line("nop 5");
    assert_eq!(i.opcode, OPCODE::NOP);
    assert_eq!(i.addr, 0);
    let i = parse_line("jmp 5 6");
    assert_eq!(i.opcode, OPCODE::INVALID);
    assert_eq!(i.addr, 0);
    assert_eq!(i.value, [0, 0, 0, 0]);
    assert_eq!(parse_line("LW 1").opcode, OPCODE::INVALID);
    assert_eq!(parse_line("lwx 1").opcode, OPCODE::INVALID);
}

#[test]
fn empty_and_blank_lines_are_invalid() {
    assert_eq!(parse_line("").opcode, OPCODE::INVALID);
    assert_eq!(parse_line(" \t ").opcode, OPCODE::INVALID);
}

#[test]
fn words_are_split_at_any_whitespace() {
    let i = parse_line("  sb\t3 \u{3000} +7   extra words");
    assert_eq!(i.opcode, OPCODE::SB);
    assert_eq!(i.addr, 3);
    assert_eq!(i.value, [0, 0, 0, 7]);
    let i = parse_line("lw\u{a0}0012");
    assert_eq!(i.opcode, OPCODE::LW);
    assert_eq!(i.addr, 12);
}

#[test]
fn parse_file_reads_every_line() {
    let v = parse_file("lw 0\nsw 10 255\r\nlw 8\n\nnop\n");
    assert_eq!(v.len(), 5);
    assert_eq!(v[0].opcode, OPCODE::LW);
    assert_eq!(v[1].opcode, OPCODE::SW);
    assert_eq!(v[1].addr, 10);
    assert_eq!(v[1].value, [0, 0, 0, 255]);
    assert_eq!(v[2].addr, 8);
    assert_eq!(v[3].opcode, OPCODE::INVALID);
    assert_eq!(v[4].opcode, OPCODE::NOP);
}

#[test]
fn parse_file_edge_cases() {
    assert_eq!(parse_file("").len(), 0);
    assert_eq!(parse_file("\n").len(), 1);
    assert_eq!(parse_file("lw 1").len(), 1);
    let v = parse_file("lw 1\r");
    assert_eq!(v.len(), 1);
    assert_eq!(v[0].addr, 1);
    let v = parse_file("lw 1\r\r\nlw 2");
    assert_eq!(v.len(), 2);
    assert_eq!(v[0].addr, 1);
    assert_eq!(v[1].addr, 2);
}

#[test]
fn a_field_that_is_no_number_makes_the_line_invalid() {
    for l in ["lw abc", "sw 4 -1", "lw 99999999999", "sb 4294967296 1", "sw 1 2x", "nop abc", "lh +", "lb -0"] {
        let i = parse_line(l);
        assert_eq!(i.opcode, OPCODE::INVALID, "{}", l);
        assert_eq!(i.addr, 0);
        assert_eq!(i.value, [0, 0, 0, 0]);
    }
    let i = parse_line("sw 4294967295 4294967295");
    assert_eq!(i.opcode, OPCODE::SW);
    assert_eq!(i.addr, 4294967295);
    assert_eq!(i.value, [255, 255, 255, 255]);
    let v = parse_file("lw 1\nlw x\nsw 2 3");
    assert_eq!(v[1].opcode, OPCODE::INVALID);
    assert_eq!(v[2].value, [0, 0, 0, 3]);
}
