//! The mnemonics of the machine instructions and their operation codes.
use crate::text::same_text;
use vstd::prelude::*;

verus! {

/// Whether `t` is the mnemonic of a machine instruction that a line may
/// begin with.
pub open spec fn opcode_name(t: Seq<char>) -> bool {
    ||| t == "LD"@
    ||| t == "ST"@
    ||| t == "LAD"@
    ||| t == "ADDA"@
    ||| t == "SUBA"@
    ||| t == "ADDL"@
    ||| t == "SUBL"@
    ||| t == "CPA"@
    ||| t == "CPL"@
    ||| t == "SLL"@
    ||| t == "SRL"@
    ||| t == "SLA"@
    ||| t == "SRA"@
    ||| t == "CALL"@
    ||| t == "RET"@
    ||| t == "PUSH"@
    ||| t == "POP"@
    ||| t == "JMI"@
    ||| t == "JZE"@
    ||| t == "JNZ"@
    ||| t == "JPL"@
    ||| t == "JUMP"@
    ||| t == "JOV"@
}

/// The operation code of the mnemonic `t`, which goes into the high byte of
/// an instruction's first word; `0xff` for a text that has none.
pub open spec fn opcode_byte(t: Seq<char>) -> u16 {
    if t == "NOP"@ {
        0x00
    } else if t == "LD"@ {
        0x10
    } else if t == "ST"@ {
        0x11
    } else if t == "LAD"@ {
        0x12
    } else if t == "ADDA"@ {
        0x20
    } else if t == "SUBA"@ {
        0x21
    } else if t == "ADDL"@ {
        0x22
    } else if t == "SUBL"@ {
        0x23
    } else if t == "AND"@ {
        0x30
    } else if t == "OR"@ {
        0x31
    } else if t == "XOR"@ {
        0x32
    } else if t == "CPA"@ {
        0x40
    } else if t == "CPL"@ {
        0x41
    } else if t == "SLA"@ {
        0x50
    } else if t == "SRA"@ {
        0x51
    } else if t == "SLL"@ {
        0x52
    } else if t == "SRL"@ {
        0x53
    } else if t == "JMI"@ {
        0x61
    } else if t == "JNZ"@ {
        0x62
    } else if t == "JZE"@ {
        0x63
    } else if t == "JUMP"@ {
        0x64
    } else if t == "JPL"@ {
        0x65
    } else if t == "JOV"@ {
        0x66
    } else if t == "PUSH"@ {
        0x70
    } else if t == "POP"@ {
        0x71
    } else if t == "CALL"@ {
        0x80
    } else if t == "RET"@ {
        0x81
    } else {
        0xff
    }
}

/// Whether `s` is the mnemonic of a machine instruction.
pub fn is_opcode(s: &str) -> (b: bool)
    ensures
        b == opcode_name(s@),
{
    same_text(s, "LD") || same_text(s, "ST") || same_text(s, "LAD") || same_text(s, "ADDA")
        || same_text(s, "SUBA") || same_text(s, "ADDL") || same_text(s, "SUBL") || same_text(
        s,
        "CPA",
    ) || same_text(s, "CPL") || same_text(s, "SLL") || same_text(s, "SRL") || same_text(s, "SLA")
        || same_text(s, "SRA") || same_text(s, "CALL") || same_text(s, "RET") || same_text(
        s,
        "PUSH",
    ) || same_text(s, "POP") || same_text(s, "JMI") || same_text(s, "JZE") || same_text(s, "JNZ")
        || same_text(s, "JPL") || same_text(s, "JUMP") || same_text(s, "JOV")
}

/// The operation code of the mnemonic `s`, or `0xff` where it has none.
pub fn get_opcode(s: &str) -> (code: u16)
    ensures
        code == opcode_byte(s@),
{
    if same_text(s, "NOP") {
        0x00
    } else if same_text(s, "LD") {
        0x10
    } else if same_text(s, "ST") {
        0x11
    } else if same_text(s, "LAD") {
        0x12
    } else if same_text(s, "ADDA") {
        0x20
    } else if same_text(s, "SUBA") {
        0x21
    } else if same_text(s, "ADDL") {
        0x22
    } else if same_text(s, "SUBL") {
        0x23
    } else if same_text(s, "AND") {
        0x30
    } else if same_text(s, "OR") {
        0x31
    } else if same_text(s, "XOR") {
        0x32
    } else if same_text(s, "CPA") {
        0x40
    } else if same_text(s, "CPL") {
        0x41
    } else if same_text(s, "SLA") {
        0x50
    } else if same_text(s, "SRA") {
        0x51
    } else if same_text(s, "SLL") {
        0x52
    } else if same_text(s, "SRL") {
        0x53
    } else if same_text(s, "JMI") {
        0x61
    } else if same_text(s, "JNZ") {
        0x62
    } else if same_text(s, "JZE") {
        0x63
    } else if same_text(s, "JUMP") {
        0x64
    } else if same_text(s, "JPL") {
        0x65
    } else if same_text(s, "JOV") {
        0x66
    } else if same_text(s, "PUSH") {
        0x70
    } else if same_text(s, "POP") {
        0x71
    } else if same_text(s, "CALL") {
        0x80
    } else if same_text(s, "RET") {
        0x81
    } else {
        0xff
    }
}

} // verus!
