use vstd::prelude::*;
use crate::text::{
    chars_of, copy_range, matches_text, numeral_value, parse_numeral, pieces, same_chars, split,
    views,
};
use crate::vm::instruction::{spec_opcode, spec_width, InstructionSet};

verus! {

/// Why assembly text was rejected.
#[derive(Debug, Clone, Copy, PartialEq, Eq, Structural)]
pub enum AsmError {
    /// A line's first field is no mnemonic.
    UnknownInstruction,
    /// A jump names a label that no line defines.
    UndefinedLabel,
    /// An operand is missing, extra, or not of the expected form.
    MalformedOperand,
    /// A word address would not fit in an `i32`.
    ProgramTooLarge,
}

/// What a line of assembly text is.
pub enum AsmLine {
    /// Blank or a `//` comment.
    Skip,
    /// `name:`
    Label(Seq<char>),
    /// An instruction, as its fields: mnemonic first, then operands.
    Instr(Seq<Seq<char>>),
}

/// The lines of `text`: its non-empty runs between line breaks.
pub open spec fn asm_lines(text: Seq<char>) -> Seq<Seq<char>> {
    pieces(text, true)
}

pub open spec fn is_comment(f: Seq<char>) -> bool {
    f.len() >= 2 && f[0] == '/' && f[1] == '/'
}

/// Classifies a line by its fields, which blanks and commas separate.
pub open spec fn classify(line: Seq<char>) -> AsmLine {
    let f = pieces(line, false);
    if f.len() == 0 || is_comment(f[0]) {
        AsmLine::Skip
    } else if f.len() == 1 && f[0].len() > 0 && f[0].last() == ':' {
        AsmLine::Label(f[0].drop_last())
    } else {
        AsmLine::Instr(f)
    }
}

pub open spec fn spec_mnemonic(m: Seq<char>) -> Option<InstructionSet> {
    if m == "LOAD_CONST"@ {
        Some(InstructionSet::LoadConst)
    } else if m == "MOV"@ {
        Some(InstructionSet::Mov)
    } else if m == "ADD"@ {
        Some(InstructionSet::Add)
    } else if m == "SUB"@ {
        Some(InstructionSet::Sub)
    } else if m == "MUL"@ {
        Some(InstructionSet::Mul)
    } else if m == "MOD"@ {
        Some(InstructionSet::Mod)
    } else if m == "DIV"@ {
        Some(InstructionSet::Div)
    } else if m == "PRINT_REG"@ {
        Some(InstructionSet::PrintReg)
    } else if m == "HALT"@ {
        Some(InstructionSet::Halt)
    } else if m == "JMP"@ {
        Some(InstructionSet::Jump)
    } else if m == "JMP_IF_NOT_ZERO"@ {
        Some(InstructionSet::JumpIfNotZero)
    } else {
        None
    }
}

/// Labels with their word addresses, in order of definition.
pub type LabelTable = Seq<(Seq<char>, int)>;

/// First pass over `lines`: the label table and the word count, or the
/// first unknown mnemonic.
pub open spec fn layout(lines: Seq<Seq<char>>) -> Result<(LabelTable, int), AsmError>
    decreases lines.len(),
{
    if lines.len() == 0 {
        Ok((Seq::empty(), 0))
    } else {
        match layout(lines.drop_last()) {
            Err(e) => Err(e),
            Ok((table, offset)) => match classify(lines.last()) {
                AsmLine::Skip => Ok((table, offset)),
                AsmLine::Label(name) => Ok((table.push((name, offset)), offset)),
                AsmLine::Instr(f) => match spec_mnemonic(f[0]) {
                    None => Err(AsmError::UnknownInstruction),
                    Some(op) => if offset + spec_width(op) > i32::MAX {
                        Err(AsmError::ProgramTooLarge)
                    } else {
                        Ok((table, offset + spec_width(op)))
                    },
                },
            },
        }
    }
}

/// The address of the last definition of `name`.
pub open spec fn lookup(table: LabelTable, name: Seq<char>) -> Option<int>
    decreases table.len(),
{
    if table.len() == 0 {
        None
    } else if table.last().0 == name {
        Some(table.last().1)
    } else {
        lookup(table.drop_last(), name)
    }
}

/// A register operand `R<digits>`.
pub open spec fn register_operand(f: Seq<char>) -> Option<i32> {
    if f.len() > 0 && f[0] == 'R' {
        match numeral_value(f.drop_first()) {
            Some(v) => if v <= i32::MAX {
                Some(v as i32)
            } else {
                None
            },
            None => None,
        }
    } else {
        None
    }
}

/// An immediate operand: decimal digits with an optional leading `-`.
pub open spec fn immediate_operand(f: Seq<char>) -> Option<i32> {
    if f.len() > 0 && f[0] == '-' {
        match numeral_value(f.drop_first()) {
            Some(v) => Some((0 - v) as i32),
            None => None,
        }
    } else {
        match numeral_value(f) {
            Some(v) => if v <= i32::MAX {
                Some(v as i32)
            } else {
                None
            },
            None => None,
        }
    }
}

pub open spec fn label_operand(f: Seq<char>, table: LabelTable) -> Result<i32, AsmError> {
    match lookup(table, f) {
        Some(a) => Ok(a as i32),
        None => Err(AsmError::UndefinedLabel),
    }
}

pub open spec fn reg_or_err(f: Seq<char>) -> Result<i32, AsmError> {
    match register_operand(f) {
        Some(r) => Ok(r),
        None => Err(AsmError::MalformedOperand),
    }
}

/// The words of one instruction line given as its fields.
pub open spec fn encode_instr(f: Seq<Seq<char>>, table: LabelTable) -> Result<Seq<i32>, AsmError> {
    match spec_mnemonic(f[0]) {
        None => Err(AsmError::UnknownInstruction),
        Some(op) => if f.len() != spec_width(op) {
            Err(AsmError::MalformedOperand)
        } else {
            let code = spec_opcode(op);
            match op {
                InstructionSet::Halt => Ok(seq![code]),
                InstructionSet::Jump => match label_operand(f[1], table) {
                    Err(e) => Err(e),
                    Ok(a) => Ok(seq![code, a]),
                },
                InstructionSet::PrintReg => match reg_or_err(f[1]) {
                    Err(e) => Err(e),
                    Ok(r) => Ok(seq![code, r]),
                },
                InstructionSet::LoadConst => match reg_or_err(f[1]) {
                    Err(e) => Err(e),
                    Ok(r) => match immediate_operand(f[2]) {
                        None => Err(AsmError::MalformedOperand),
                        Some(v) => Ok(seq![code, r, v]),
                    },
                },
                InstructionSet::JumpIfNotZero => match reg_or_err(f[1]) {
                    Err(e) => Err(e),
                    Ok(r) => match label_operand(f[2], table) {
                        Err(e) => Err(e),
                        Ok(a) => Ok(seq![code, r, a]),
                    },
                },
                _ => match reg_or_err(f[1]) {
                    Err(e) => Err(e),
                    Ok(r1) => match reg_or_err(f[2]) {
                        Err(e) => Err(e),
                        Ok(r2) => Ok(seq![code, r1, r2]),
                    },
                },
            }
        },
    }
}

/// Second pass over `lines`: the words of every instruction, in order.
pub open spec fn encode(lines: Seq<Seq<char>>, table: LabelTable) -> Result<Seq<i32>, AsmError>
    decreases lines.len(),
{
    if lines.len() == 0 {
        Ok(Seq::empty())
    } else {
        match encode(lines.drop_last(), table) {
            Err(e) => Err(e),
            Ok(words) => match classify(lines.last()) {
                AsmLine::Instr(f) => match encode_instr(f, table) {
                    Err(e) => Err(e),
                    Ok(w) => Ok(words + w),
                },
                _ => Ok(words),
            },
        }
    }
}

/// The words that assembly text `text` stands for.
pub open spec fn assemble_spec(text: Seq<char>) -> Result<Seq<i32>, AsmError> {
    let lines = asm_lines(text);
    match layout(lines) {
        Err(e) => Err(e),
        Ok((table, _)) => encode(lines, table),
    }
}

/// Assembling is a function of the text alone: two texts with the same
/// characters give the same words or the same error.
pub proof fn lemma_assemble_deterministic(a: Seq<char>, b: Seq<char>)
    requires
        a == b,
    ensures
        assemble_spec(a) == assemble_spec(b),
{
}

/// The word address of line `n`: the words that the instructions before it
/// occupy.
pub open spec fn address_of_line(lines: Seq<Seq<char>>, n: int) -> int {
    match layout(lines.take(n)) {
        Ok((_, offset)) => offset,
        Err(_) => 0,
    }
}

proof fn lemma_layout_prefix_ok(lines: Seq<Seq<char>>, n: int)
    requires
        layout(lines) is Ok,
        0 <= n <= lines.len(),
    ensures
        layout(lines.take(n)) is Ok,
{
    if layout(lines.take(n)) is Err {
        lemma_layout_error_sticks(lines, n);
    }
}

/// After the only definition of `name`, at line `j`, the label table maps
/// `name` to that line's address.
proof fn lemma_lookup_after_definition(lines: Seq<Seq<char>>, name: Seq<char>, j: int, n: int)
    requires
        layout(lines) is Ok,
        0 <= j < n <= lines.len(),
        classify(lines[j]) == AsmLine::Label(name),
        forall|i: int| 0 <= i < lines.len() && i != j ==> classify(lines[i]) != AsmLine::Label(name),
    ensures
        lookup(layout(lines.take(n))->Ok_0.0, name) == Some(address_of_line(lines, j)),
    decreases n - j,
{
    lemma_layout_prefix_ok(lines, n);
    lemma_layout_prefix_ok(lines, n - 1);
    assert(lines.take(n).drop_last() =~= lines.take(n - 1));
    assert(lines.take(n).last() == lines[n - 1]);
    if n > j + 1 {
        lemma_lookup_after_definition(lines, name, j, n - 1);
        let prev = layout(lines.take(n - 1))->Ok_0.0;
        match classify(lines[n - 1]) {
            AsmLine::Label(other) => {
                assert(other != name);
                let cur = layout(lines.take(n))->Ok_0.0;
                assert(cur.drop_last() =~= prev);
            },
            _ => {},
        }
    }
}

proof fn lemma_encode_instr_width(f: Seq<Seq<char>>, table: LabelTable)
    requires
        f.len() > 0,
    ensures
        encode_instr(f, table) matches Ok(w) ==> spec_mnemonic(f[0]) is Some && w.len() == spec_width(
            spec_mnemonic(f[0])->0,
        ),
{
}

/// The words of the lines before `n` fill exactly the addresses before it.
proof fn lemma_encode_prefix_len(lines: Seq<Seq<char>>, table: LabelTable, n: int)
    requires
        layout(lines) is Ok,
        0 <= n <= lines.len(),
    ensures
        encode(lines.take(n), table) matches Ok(w) ==> w.len() == address_of_line(lines, n),
    decreases n,
{
    lemma_layout_prefix_ok(lines, n);
    if n > 0 {
        lemma_encode_prefix_len(lines, table, n - 1);
        lemma_layout_prefix_ok(lines, n - 1);
        assert(lines.take(n).drop_last() =~= lines.take(n - 1));
        assert(lines.take(n).last() == lines[n - 1]);
        if let AsmLine::Instr(f) = classify(lines[n - 1]) {
            lemma_encode_instr_width(f, table);
        }
    } else {
        assert(lines.take(0) =~= Seq::<Seq<char>>::empty());
    }
}

/// The words of a prefix of the lines start the words of a longer prefix.
proof fn lemma_encode_prefix(lines: Seq<Seq<char>>, table: LabelTable, n: int, m: int)
    requires
        0 <= n <= m <= lines.len(),
        encode(lines.take(m), table) is Ok,
    ensures
        encode(lines.take(n), table) is Ok,
        encode(lines.take(n), table)->Ok_0.len() <= encode(lines.take(m), table)->Ok_0.len(),
        encode(lines.take(m), table)->Ok_0.take(encode(lines.take(n), table)->Ok_0.len() as int)
            == encode(lines.take(n), table)->Ok_0,
    decreases m - n,
{
    if n < m {
        assert(lines.take(m).drop_last() =~= lines.take(m - 1));
        lemma_encode_prefix(lines, table, n, m - 1);
        let wm = encode(lines.take(m), table)->Ok_0;
        let wp = encode(lines.take(m - 1), table)->Ok_0;
        let wn = encode(lines.take(n), table)->Ok_0;
        assert(wm.take(wp.len() as int) =~= wp);
        assert(wm.len() >= wp.len());
        assert(wm.take(wn.len() as int) =~= wp.take(wn.len() as int));
    } else {
        let w = encode(lines.take(n), table)->Ok_0;
        assert(w.take(w.len() as int) =~= w);
    }
}

/// A jump to a label, defined before or after it, assembles to the word
/// address of the label's line: the opcode at the jump's own address is
/// followed by that address.
pub proof fn lemma_jump_target_resolved(text: Seq<char>, k: int, j: int)
    requires
        assemble_spec(text) is Ok,
        0 <= k < asm_lines(text).len(),
        0 <= j < asm_lines(text).len(),
        classify(asm_lines(text)[k]) is Instr,
        spec_mnemonic(classify(asm_lines(text)[k])->Instr_0[0]) == Some(InstructionSet::Jump),
        classify(asm_lines(text)[j]) == AsmLine::Label(classify(asm_lines(text)[k])->Instr_0[1]),
        forall|i: int|
            0 <= i < asm_lines(text).len() && i != j ==> classify(asm_lines(text)[i]) != classify(
                asm_lines(text)[j],
            ),
    ensures
        assemble_spec(text)->Ok_0[address_of_line(asm_lines(text), k)] == spec_opcode(InstructionSet::Jump),
        assemble_spec(text)->Ok_0[address_of_line(asm_lines(text), k) + 1] == address_of_line(
            asm_lines(text),
            j,
        ),
{
    let lines = asm_lines(text);
    let f = classify(lines[k])->Instr_0;
    let name = f[1];
    let n = lines.len() as int;
    let table = layout(lines)->Ok_0.0;
    assert(lines.take(n) =~= lines);
    lemma_lookup_after_definition(lines, name, j, n);
    let words = encode(lines, table)->Ok_0;
    lemma_encode_prefix(lines, table, k + 1, n);
    lemma_encode_prefix(lines, table, k, k + 1);
    lemma_encode_prefix_len(lines, table, k);
    assert(lines.take(k + 1).drop_last() =~= lines.take(k));
    assert(lines.take(k + 1).last() == lines[k]);
    let before = encode(lines.take(k), table)->Ok_0;
    let upto = encode(lines.take(k + 1), table)->Ok_0;
    let a = address_of_line(lines, j);
    lemma_layout_prefix_ok(lines, j);
    lemma_address_bound(lines, j);
    assert(encode_instr(f, table) == Ok::<Seq<i32>, AsmError>(seq![9i32, a as i32]));
    assert(upto =~= before + seq![9i32, a as i32]);
    assert(words.take(upto.len() as int) == upto);
    assert(words[before.len() as int] == upto[before.len() as int]);
    assert(words[before.len() + 1int] == upto[before.len() + 1int]);
}

/// Every line address fits in an `i32`.
proof fn lemma_address_bound(lines: Seq<Seq<char>>, n: int)
    requires
        layout(lines) is Ok,
        0 <= n <= lines.len(),
    ensures
        0 <= address_of_line(lines, n) <= i32::MAX,
    decreases n,
{
    lemma_layout_prefix_ok(lines, n);
    if n > 0 {
        lemma_address_bound(lines, n - 1);
        lemma_layout_prefix_ok(lines, n - 1);
        assert(lines.take(n).drop_last() =~= lines.take(n - 1));
    } else {
        assert(lines.take(0) =~= Seq::<Seq<char>>::empty());
    }
}

enum Line {
    Skip,
    Label(Vec<char>),
    Instr(Vec<Vec<char>>),
}

impl View for Line {
    type V = AsmLine;

    closed spec fn view(&self) -> AsmLine {
        match self {
            Line::Skip => AsmLine::Skip,
            Line::Label(n) => AsmLine::Label(n@),
            Line::Instr(f) => AsmLine::Instr(views(f@)),
        }
    }
}

fn classify_line(line: &Vec<char>) -> (r: Line)
    ensures
        r@ == classify(line@),
{
    let f = split(line, false);
    proof {
        if f@.len() > 0 {
            assert(views(f@)[0] == f@[0]@);
        }
    }
    if f.len() == 0 {
        return Line::Skip;
    }
    let first = &f[0];
    if first.len() >= 2 && first[0] == '/' && first[1] == '/' {
        return Line::Skip;
    }
    if f.len() == 1 && first.len() > 0 && first[first.len() - 1] == ':' {
        let name = copy_range(first, 0, first.len() - 1);
        assert(name@ =~= first@.drop_last());
        return Line::Label(name);
    }
    Line::Instr(f)
}

fn mnemonic(m: &Vec<char>) -> (r: Option<InstructionSet>)
    ensures
        r == spec_mnemonic(m@),
{
    if matches_text(m, "LOAD_CONST") {
        Some(InstructionSet::LoadConst)
    } else if matches_text(m, "MOV") {
        Some(InstructionSet::Mov)
    } else if matches_text(m, "ADD") {
        Some(InstructionSet::Add)
    } else if matches_text(m, "SUB") {
        Some(InstructionSet::Sub)
    } else if matches_text(m, "MUL") {
        Some(InstructionSet::Mul)
    } else if matches_text(m, "MOD") {
        Some(InstructionSet::Mod)
    } else if matches_text(m, "DIV") {
        Some(InstructionSet::Div)
    } else if matches_text(m, "PRINT_REG") {
        Some(InstructionSet::PrintReg)
    } else if matches_text(m, "HALT") {
        Some(InstructionSet::Halt)
    } else if matches_text(m, "JMP") {
        Some(InstructionSet::Jump)
    } else if matches_text(m, "JMP_IF_NOT_ZERO") {
        Some(InstructionSet::JumpIfNotZero)
    } else {
        None
    }
}

fn width(op: InstructionSet) -> (r: usize)
    ensures
        r == spec_width(op),
{
    match op {
        InstructionSet::Halt => 1,
        InstructionSet::PrintReg | InstructionSet::Jump => 2,
        _ => 3,
    }
}

pub open spec fn table_view(t: Seq<(Vec<char>, i32)>) -> LabelTable {
    t.map_values(|p: (Vec<char>, i32)| (p.0@, p.1 as int))
}

fn find_label(table: &Vec<(Vec<char>, i32)>, name: &Vec<char>) -> (r: Option<i32>)
    ensures
        r == match lookup(table_view(table@), name@) {
            Some(a) => Some(a as i32),
            None => None::<i32>,
        },
        lookup(table_view(table@), name@) matches Some(a) ==> a == r->0 as int,
{
    let mut found: Option<i32> = None;
    let mut i: usize = 0;
    while i < table.len()
        invariant
            i <= table@.len(),
            found == match lookup(table_view(table@.take(i as int)), name@) {
                Some(a) => Some(a as i32),
                None => None::<i32>,
            },
            lookup(table_view(table@.take(i as int)), name@) matches Some(a) ==> a
                == found->0 as int,
        decreases table@.len() - i,
    {
        assert(table_view(table@.take(i + 1)).drop_last() =~= table_view(table@.take(i as int)));
        if same_chars(&table[i].0, name) {
            found = Some(table[i].1);
        }
        i = i + 1;
    }
    assert(table@.take(i as int) =~= table@);
    found
}

fn register_field(f: &Vec<char>) -> (r: Result<i32, AsmError>)
    ensures
        r == reg_or_err(f@),
{
    if f.len() > 0 && f[0] == 'R' {
        assert(f@.subrange(1, f@.len() as int) =~= f@.drop_first());
        match parse_numeral(f, 1, f.len()) {
            Some(v) => if v <= i32::MAX as u64 {
                Ok(v as i32)
            } else {
                Err(AsmError::MalformedOperand)
            },
            None => Err(AsmError::MalformedOperand),
        }
    } else {
        Err(AsmError::MalformedOperand)
    }
}

fn immediate_field(f: &Vec<char>) -> (r: Option<i32>)
    ensures
        r == immediate_operand(f@),
{
    if f.len() > 0 && f[0] == '-' {
        assert(f@.subrange(1, f@.len() as int) =~= f@.drop_first());
        match parse_numeral(f, 1, f.len()) {
            Some(v) => Some((0i64 - v as i64) as i32),
            None => None,
        }
    } else {
        assert(f@.subrange(0, f@.len() as int) =~= f@);
        match parse_numeral(f, 0, f.len()) {
            Some(v) => if v <= i32::MAX as u64 {
                Some(v as i32)
            } else {
                None
            },
            None => None,
        }
    }
}

fn label_field(f: &Vec<char>, table: &Vec<(Vec<char>, i32)>) -> (r: Result<i32, AsmError>)
    ensures
        r == label_operand(f@, table_view(table@)),
{
    match find_label(table, f) {
        Some(a) => Ok(a),
        None => Err(AsmError::UndefinedLabel),
    }
}

fn encode_line(f: &Vec<Vec<char>>, table: &Vec<(Vec<char>, i32)>, out: &mut Vec<i32>) -> (r: Result<(), AsmError>)
    requires
        f@.len() > 0,
    ensures
        match encode_instr(views(f@), table_view(table@)) {
            Ok(w) => r is Ok && final(out)@ == old(out)@ + w,
            Err(e) => r == Err::<(), AsmError>(e),
        },
{
    let ghost fv = views(f@);
    assert(forall|i: int| 0 <= i < f@.len() ==> fv[i] == f@[i]@);
    let op = match mnemonic(&f[0]) {
        Some(op) => op,
        None => return Err(AsmError::UnknownInstruction),
    };
    if f.len() != width(op) {
        return Err(AsmError::MalformedOperand);
    }
    let code = op.opcode();
    match op {
        InstructionSet::Halt => {
            out.push(code);
            assert(out@ =~= old(out)@ + seq![code]);
        },
        InstructionSet::Jump => {
            let a = label_field(&f[1], table)?;
            out.push(code);
            out.push(a);
            assert(out@ =~= old(out)@ + seq![code, a]);
        },
        InstructionSet::PrintReg => {
            let r = register_field(&f[1])?;
            out.push(code);
            out.push(r);
            assert(out@ =~= old(out)@ + seq![code, r]);
        },
        InstructionSet::LoadConst => {
            let r = register_field(&f[1])?;
            let v = match immediate_field(&f[2]) {
                Some(v) => v,
                None => return Err(AsmError::MalformedOperand),
            };
            out.push(code);
            out.push(r);
            out.push(v);
            assert(out@ =~= old(out)@ + seq![code, r, v]);
        },
        InstructionSet::JumpIfNotZero => {
            let r = register_field(&f[1])?;
            let a = label_field(&f[2], table)?;
            out.push(code);
            out.push(r);
            out.push(a);
            assert(out@ =~= old(out)@ + seq![code, r, a]);
        },
        _ => {
            let r1 = register_field(&f[1])?;
            let r2 = register_field(&f[2])?;
            out.push(code);
            out.push(r1);
            out.push(r2);
            assert(out@ =~= old(out)@ + seq![code, r1, r2]);
        },
    }
    Ok(())
}

/// Assembles `text` in two passes: the first gives each label the word
/// address of the next instruction, the second emits each instruction's
/// opcode followed by its operands.
pub fn assemble(text: &str) -> (r: Result<Vec<i32>, AsmError>)
    ensures
        match assemble_spec(text@) {
            Ok(w) => r is Ok && r->Ok_0@ == w,
            Err(e) => r == Err::<Vec<i32>, AsmError>(e),
        },
{
    let chars = chars_of(text);
    let lines = split(&chars, true);
    let ghost lv = views(lines@);
    assert(forall|i: int| 0 <= i < lines@.len() ==> lv[i] == lines@[i]@);
    let mut table: Vec<(Vec<char>, i32)> = Vec::new();
    let mut offset: usize = 0;
    let mut i: usize = 0;
    assert(lv.take(0) =~= Seq::<Seq<char>>::empty());
    assert(table_view(table@) =~= Seq::<(Seq<char>, int)>::empty());
    while i < lines.len()
        invariant
            i <= lines@.len(),
            lv == asm_lines(text@),
            lv.len() == lines@.len(),
            forall|k: int| 0 <= k < lines@.len() ==> lv[k] == #[trigger] lines@[k]@,
            layout(lv.take(i as int)) == Ok::<(LabelTable, int), AsmError>(
                (table_view(table@), offset as int),
            ),
            offset <= i32::MAX,
        decreases lines@.len() - i,
    {
        assert(lv.take(i + 1).drop_last() =~= lv.take(i as int));
        let ghost before = table@;
        match classify_line(&lines[i]) {
            Line::Skip => {},
            Line::Label(name) => {
                table.push((name, offset as i32));
                assert(table_view(table@) =~= table_view(before).push((name@, offset as int)));
            },
            Line::Instr(f) => {
                let op = match mnemonic(&f[0]) {
                    Some(op) => op,
                    None => {
                        proof {
                            assert(views(f@)[0] == f@[0]@);
                            lemma_layout_error_sticks(lv, i as int + 1);
                            assert(lv.take(lv.len() as int) =~= lv);
                        }
                        return Err(AsmError::UnknownInstruction);
                    },
                };
                assert(views(f@)[0] == f@[0]@);
                let w = width(op);
                if offset + w > i32::MAX as usize {
                    proof {
                        lemma_layout_error_sticks(lv, i as int + 1);
                        assert(lv.take(lv.len() as int) =~= lv);
                    }
                    return Err(AsmError::ProgramTooLarge);
                }
                offset = offset + w;
            },
        }
        i = i + 1;
    }
    assert(lv.take(lines@.len() as int) =~= lv);
    let ghost tv = table_view(table@);
    let mut program: Vec<i32> = Vec::new();
    let mut j: usize = 0;
    assert(lv.take(0) =~= Seq::<Seq<char>>::empty());
    while j < lines.len()
        invariant
            j <= lines@.len(),
            lv == asm_lines(text@),
            lv.len() == lines@.len(),
            forall|k: int| 0 <= k < lines@.len() ==> lv[k] == #[trigger] lines@[k]@,
            layout(lv) == Ok::<(LabelTable, int), AsmError>((tv, offset as int)),
            tv == table_view(table@),
            encode(lv.take(j as int), tv) == Ok::<Seq<i32>, AsmError>(program@),
        decreases lines@.len() - j,
    {
        assert(lv.take(j + 1).drop_last() =~= lv.take(j as int));
        match classify_line(&lines[j]) {
            Line::Instr(f) => {
                assert(f@.len() > 0) by {
                    assert(classify(lv[j as int]) == AsmLine::Instr(views(f@)));
                }
                let res = encode_line(&f, &table, &mut program);
                if let Err(e) = res {
                    proof {
                        lemma_encode_error_sticks(lv, tv, j as int + 1);
                        assert(lv.take(lv.len() as int) =~= lv);
                    }
                    return Err(e);
                }
            },
            _ => {},
        }
        j = j + 1;
    }
    assert(lv.take(lines@.len() as int) =~= lv);
    Ok(program)
}

proof fn lemma_layout_error_sticks(lines: Seq<Seq<char>>, n: int)
    requires
        0 <= n <= lines.len(),
        layout(lines.take(n)) is Err,
    ensures
        layout(lines) == layout(lines.take(n)),
    decreases lines.len() - n,
{
    if n < lines.len() {
        assert(lines.take(n + 1).drop_last() =~= lines.take(n));
        lemma_layout_error_sticks(lines, n + 1);
    } else {
        assert(lines.take(n) =~= lines);
    }
}

proof fn lemma_encode_error_sticks(lines: Seq<Seq<char>>, table: LabelTable, n: int)
    requires
        0 <= n <= lines.len(),
        encode(lines.take(n), table) is Err,
    ensures
        encode(lines, table) == encode(lines.take(n), table),
    decreases lines.len() - n,
{
    if n < lines.len() {
        assert(lines.take(n + 1).drop_last() =~= lines.take(n));
        lemma_encode_error_sticks(lines, table, n + 1);
    } else {
        assert(lines.take(n) =~= lines);
    }
}

} // verus!
