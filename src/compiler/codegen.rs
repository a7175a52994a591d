use vstd::prelude::*;
use crate::compiler::parser::{node_views, ASTNode, NodeView};
use crate::text::{decimal, push_decimal, push_signed_decimal, push_text, signed_decimal, str_eq, string_of};
use crate::vm::machine::NUM_REGISTERS;

verus! {

/// Why a syntax tree could not be lowered to assembly.
#[derive(Debug, Clone, Copy, PartialEq, Eq, Structural)]
pub enum CodegenError {
    /// An identifier is used before any value was bound to it.
    UndefinedVariable,
    /// A binary operator other than `+ - * /`.
    UnsupportedOperator,
    /// A statement node where an expression is expected.
    UnsupportedNode,
    /// Every register of the machine is in use.
    OutOfRegisters,
}

/// The generator's state: the text so far, the next free register, the
/// bindings of names to registers (the last one of a name counts) and the
/// next label number.
pub struct GenState {
    pub text: Seq<char>,
    pub next_reg: nat,
    pub vars: Seq<(Seq<char>, nat)>,
    pub next_label: nat,
}

pub open spec fn reg_text(r: nat) -> Seq<char> {
    seq!['R'] + decimal(r)
}

pub open spec fn label_text(l: nat) -> Seq<char> {
    "label_"@ + decimal(l)
}

/// `M Ra, Rb`
pub open spec fn op_line(m: Seq<char>, a: nat, b: nat) -> Seq<char> {
    m + " "@ + reg_text(a) + ", "@ + reg_text(b)
}

pub open spec fn load_line(r: nat, v: int) -> Seq<char> {
    "LOAD_CONST "@ + reg_text(r) + ", "@ + signed_decimal(v)
}

pub open spec fn print_line(r: nat) -> Seq<char> {
    "PRINT_REG "@ + reg_text(r)
}

pub open spec fn label_line(l: nat) -> Seq<char> {
    label_text(l) + ":"@
}

pub open spec fn jump_line(l: nat) -> Seq<char> {
    "JMP "@ + label_text(l)
}

pub open spec fn branch_line(r: nat, l: nat) -> Seq<char> {
    "JMP_IF_NOT_ZERO "@ + reg_text(r) + ", "@ + label_text(l)
}

/// Appends one line of text.
pub open spec fn line(st: GenState, l: Seq<char>) -> GenState {
    GenState { text: st.text + l + seq!['\n'], ..st }
}

/// The register bound to `name` last, if any.
pub open spec fn find_var(vars: Seq<(Seq<char>, nat)>, name: Seq<char>) -> Option<nat>
    decreases vars.len(),
{
    if vars.len() == 0 {
        None
    } else if vars.last().0 == name {
        Some(vars.last().1)
    } else {
        find_var(vars.drop_last(), name)
    }
}

pub open spec fn op_mnemonic(op: Seq<char>) -> Option<Seq<char>> {
    if op == "+"@ {
        Some("ADD"@)
    } else if op == "-"@ {
        Some("SUB"@)
    } else if op == "*"@ {
        Some("MUL"@)
    } else if op == "/"@ {
        Some("DIV"@)
    } else {
        None
    }
}

/// Lowers an expression into a newly allocated register: the new state
/// and that register.
pub open spec fn gen_expr(st: GenState, n: NodeView) -> Result<(GenState, nat), CodegenError>
    decreases n,
{
    match n {
        NodeView::Number(v) => if st.next_reg >= NUM_REGISTERS {
            Err(CodegenError::OutOfRegisters)
        } else {
            let r = st.next_reg;
            Ok((line(GenState { next_reg: r + 1, ..st }, load_line(r, v as int)), r))
        },
        NodeView::Identifier(x) => match find_var(st.vars, x) {
            None => Err(CodegenError::UndefinedVariable),
            Some(v) => if st.next_reg >= NUM_REGISTERS {
                Err(CodegenError::OutOfRegisters)
            } else {
                let r = st.next_reg;
                Ok((line(GenState { next_reg: r + 1, ..st }, op_line("MOV"@, r, v)), r))
            },
        },
        NodeView::BinaryOp { op, left, right } => match op_mnemonic(op) {
            None => Err(CodegenError::UnsupportedOperator),
            Some(m) => match gen_expr(st, *left) {
                Err(e) => Err(e),
                Ok((s1, a)) => match gen_expr(s1, *right) {
                    Err(e) => Err(e),
                    Ok((s2, b)) => Ok((line(s2, op_line(m, a, b)), a)),
                },
            },
        },
        _ => Err(CodegenError::UnsupportedNode),
    }
}

/// Stores the value in register `v` under `name`: a move into the
/// register already bound to it, or else a new binding of `name` to `v`.
pub open spec fn assign(st: GenState, name: Seq<char>, v: nat) -> GenState {
    match find_var(st.vars, name) {
        Some(t) => line(st, op_line("MOV"@, t, v)),
        None => GenState { vars: st.vars.push((name, v)), ..st },
    }
}

/// Evaluates and prints each argument in turn.
pub open spec fn gen_prints(st: GenState, args: Seq<NodeView>) -> Result<GenState, CodegenError>
    decreases args.len(),
{
    if args.len() == 0 {
        Ok(st)
    } else {
        match gen_expr(st, args[0]) {
            Err(e) => Err(e),
            Ok((s1, r)) => gen_prints(line(s1, print_line(r)), args.subrange(1, args.len() as int)),
        }
    }
}

/// The loop header: the loop variable starts at the start value and the
/// body runs while it differs from the end value (one more, when the range
/// is inclusive). `i` is the loop variable's register, `t` a scratch
/// register, `e` the end register and `l` the first of three labels.
pub open spec fn loop_head(st: GenState, i: nat, t: nat, s: nat, e: nat, l: nat, inclusive: bool) -> GenState {
    let s1 = line(st, op_line("MOV"@, i, s));
    let s2 = if inclusive {
        line(line(s1, load_line(t, 1)), op_line("ADD"@, e, t))
    } else {
        s1
    };
    let s3 = line(s2, label_line(l));
    let s4 = line(line(s3, op_line("MOV"@, t, e)), op_line("SUB"@, t, i));
    line(line(line(s4, branch_line(t, l + 1)), jump_line(l + 2)), label_line(l + 1))
}

/// The loop tail: increment, jump back, and the exit label.
pub open spec fn loop_tail(st: GenState, i: nat, t: nat, l: nat) -> GenState {
    line(line(line(line(st, load_line(t, 1)), op_line("ADD"@, i, t)), jump_line(l)), label_line(l + 2))
}

/// Lowers one statement. The body of a loop is a scope: the bindings made
/// in it, the loop variable's included, end with the loop.
pub open spec fn gen_stmt(st: GenState, n: NodeView) -> Result<GenState, CodegenError>
    decreases n,
{
    match n {
        NodeView::VariableDeclaration { mutable, name, value } => match value {
            None => Ok(st),
            Some(e) => match gen_expr(st, *e) {
                Err(err) => Err(err),
                Ok((s1, v)) => Ok(assign(s1, name, v)),
            },
        },
        NodeView::Assignment { target, value } => match gen_expr(st, *value) {
            Err(err) => Err(err),
            Ok((s1, v)) => Ok(assign(s1, target, v)),
        },
        NodeView::Print(args) => gen_prints(st, args),
        NodeView::ForLoop { variable, start, end, inclusive, body } => match gen_expr(st, *start) {
            Err(err) => Err(err),
            Ok((s1, rs)) => match gen_expr(s1, *end) {
                Err(err) => Err(err),
                Ok((s2, re)) => if s2.next_reg + 2 > NUM_REGISTERS {
                    Err(CodegenError::OutOfRegisters)
                } else {
                    let i = s2.next_reg;
                    let t = i + 1;
                    let l = s2.next_label;
                    let s3 = GenState { next_reg: i + 2, next_label: l + 3, ..s2 };
                    let s4 = loop_head(GenState { vars: s3.vars.push((variable, i)), ..s3 }, i, t, rs, re, l, inclusive);
                    match gen_seq(s4, body) {
                        Err(err) => Err(err),
                        Ok(s5) => Ok(GenState { vars: s3.vars, ..loop_tail(s5, i, t, l) }),
                    }
                },
            },
        },
        _ => match gen_expr(st, n) {
            Err(err) => Err(err),
            Ok((s1, r)) => Ok(s1),
        },
    }
}

/// Lowers statements in order.
pub open spec fn gen_seq(st: GenState, s: Seq<NodeView>) -> Result<GenState, CodegenError>
    decreases s,
{
    if s.len() == 0 {
        Ok(st)
    } else {
        proof {
            broadcast use vstd::seq::axiom_seq_index_decreases, vstd::seq::axiom_seq_subrange_decreases;
        }
        match gen_stmt(st, s[0]) {
            Err(err) => Err(err),
            Ok(s1) => gen_seq(s1, s.subrange(1, s.len() as int)),
        }
    }
}

/// The initial state: no text, no register used, no binding, no label.
pub open spec fn initial_state() -> GenState {
    GenState { text: Seq::empty(), next_reg: 0, vars: Seq::empty(), next_label: 0 }
}

/// The assembly text for a program, from a fresh generator.
pub open spec fn gen_program(nodes: Seq<NodeView>) -> Result<Seq<char>, CodegenError> {
    match gen_seq(initial_state(), nodes) {
        Ok(s) => Ok(s.text),
        Err(e) => Err(e),
    }
}

pub struct CodeGenerator {
    output: Vec<char>,
    register_counter: usize,
    variable_map: Vec<(String, usize)>,
    label_counter: usize,
}

pub open spec fn vars_view(v: Seq<(String, usize)>) -> Seq<(Seq<char>, nat)> {
    v.map_values(|p: (String, usize)| (p.0@, p.1 as nat))
}

impl View for CodeGenerator {
    type V = GenState;

    closed spec fn view(&self) -> GenState {
        GenState {
            text: self.output@,
            next_reg: self.register_counter as nat,
            vars: vars_view(self.variable_map@),
            next_label: self.label_counter as nat,
        }
    }
}

impl CodeGenerator {
    /// Register and label counters stay within their bounds.
    pub closed spec fn wf(&self) -> bool {
        &&& self.register_counter <= NUM_REGISTERS
        &&& self.label_counter <= 3 * self.register_counter
    }

    pub fn new() -> (r: Self)
        ensures
            r.wf(),
            r@ == initial_state(),
    {
        let r = CodeGenerator {
            output: Vec::new(),
            register_counter: 0,
            variable_map: Vec::new(),
            label_counter: 0,
        };
        assert(r@.vars =~= Seq::<(Seq<char>, nat)>::empty());
        assert(r@.text =~= Seq::<char>::empty());
        r
    }

    /// Lowers the statements `nodes` in order and returns all text
    /// generated so far: for a new generator, the program's assembly.
    pub fn generate(&mut self, nodes: &[ASTNode]) -> (r: Result<String, CodegenError>)
        requires
            old(self).wf(),
        ensures
            match gen_seq(old(self)@, node_views(nodes@)) {
                Ok(s) => r is Ok && r->Ok_0@ == s.text && final(self)@ == s,
                Err(e) => r == Err::<String, CodegenError>(e),
            },
            r is Ok ==> final(self).wf(),
    {
        let ghost vs = node_views(nodes@);
        proof {
            lemma_node_views_len(nodes@);
        }
        let mut i: usize = 0;
        assert(vs.subrange(0, vs.len() as int) =~= vs);
        while i < nodes.len()
            invariant
                self.wf(),
                i <= nodes@.len(),
                vs == node_views(nodes@),
                vs.len() == nodes@.len(),
                gen_seq(old(self)@, vs) == gen_seq(self@, vs.subrange(i as int, vs.len() as int)),
            decreases nodes@.len() - i,
        {
            proof {
                lemma_node_views_index(nodes@, i as int);
                lemma_gen_seq_step(self@, vs, i as int);
            }
            if let Err(e) = self.generate_node(&nodes[i]) {
                return Err(e);
            }
            i = i + 1;
        }
        proof {
            assert(vs.subrange(i as int, vs.len() as int) =~= Seq::<NodeView>::empty());
        }
        Ok(string_of(&self.output, 0, self.output.len()))
    }

    /// Appends `text` and a line break.
    fn emit_text(&mut self, text: &Vec<char>)
        ensures
            final(self)@ == line(old(self)@, text@),
            final(self).register_counter == old(self).register_counter,
            final(self).label_counter == old(self).label_counter,
    {
        let mut k: usize = 0;
        let ghost before = self.output@;
        while k < text.len()
            invariant
                k <= text@.len(),
                self.output@ == before + text@.take(k as int),
                self.register_counter == old(self).register_counter,
                self.label_counter == old(self).label_counter,
                self.variable_map == old(self).variable_map,
                before == old(self).output@,
            decreases text@.len() - k,
        {
            self.output.push(text[k]);
            k = k + 1;
            assert(self.output@ =~= before + text@.take(k as int));
        }
        self.output.push('\n');
        assert(text@.take(k as int) =~= text@);
        assert(self@ == line(old(self)@, text@)) by {
            assert(self.output@ =~= before + text@ + seq!['\n']);
        }
    }

    /// Emits `M Ra, Rb`.
    fn emit_op(&mut self, m: &str, a: usize, b: usize)
        ensures
            final(self)@ == line(old(self)@, op_line(m@, a as nat, b as nat)),
            final(self).register_counter == old(self).register_counter,
            final(self).label_counter == old(self).label_counter,
    {
        let mut t: Vec<char> = Vec::new();
        push_text(&mut t, m);
        push_text(&mut t, " R");
        push_decimal(&mut t, a as u64);
        push_text(&mut t, ", R");
        push_decimal(&mut t, b as u64);
        proof {
            reveal_strlit(" R");
            reveal_strlit(", R");
            reveal_strlit(" ");
            reveal_strlit(", ");
            assert(t@ =~= op_line(m@, a as nat, b as nat));
        }
        self.emit_text(&t);
    }

    fn emit_load(&mut self, r: usize, v: i32)
        ensures
            final(self)@ == line(old(self)@, load_line(r as nat, v as int)),
            final(self).register_counter == old(self).register_counter,
            final(self).label_counter == old(self).label_counter,
    {
        let mut t: Vec<char> = Vec::new();
        push_text(&mut t, "LOAD_CONST R");
        push_decimal(&mut t, r as u64);
        push_text(&mut t, ", ");
        push_signed_decimal(&mut t, v);
        proof {
            reveal_strlit("LOAD_CONST R");
            reveal_strlit("LOAD_CONST ");
            assert(t@ =~= load_line(r as nat, v as int));
        }
        self.emit_text(&t);
    }

    fn emit_print(&mut self, r: usize)
        ensures
            final(self)@ == line(old(self)@, print_line(r as nat)),
            final(self).register_counter == old(self).register_counter,
            final(self).label_counter == old(self).label_counter,
    {
        let mut t: Vec<char> = Vec::new();
        push_text(&mut t, "PRINT_REG R");
        push_decimal(&mut t, r as u64);
        proof {
            reveal_strlit("PRINT_REG R");
            reveal_strlit("PRINT_REG ");
            assert(t@ =~= print_line(r as nat));
        }
        self.emit_text(&t);
    }

    fn emit_label(&mut self, l: usize)
        ensures
            final(self)@ == line(old(self)@, label_line(l as nat)),
            final(self).register_counter == old(self).register_counter,
            final(self).label_counter == old(self).label_counter,
    {
        let mut t: Vec<char> = Vec::new();
        push_text(&mut t, "label_");
        push_decimal(&mut t, l as u64);
        push_text(&mut t, ":");
        proof {
            assert(t@ =~= label_line(l as nat));
        }
        self.emit_text(&t);
    }

    fn emit_jump(&mut self, l: usize)
        ensures
            final(self)@ == line(old(self)@, jump_line(l as nat)),
            final(self).register_counter == old(self).register_counter,
            final(self).label_counter == old(self).label_counter,
    {
        let mut t: Vec<char> = Vec::new();
        push_text(&mut t, "JMP label_");
        push_decimal(&mut t, l as u64);
        proof {
            reveal_strlit("JMP label_");
            reveal_strlit("JMP ");
            reveal_strlit("label_");
            assert(t@ =~= jump_line(l as nat));
        }
        self.emit_text(&t);
    }

    fn emit_branch(&mut self, r: usize, l: usize)
        ensures
            final(self)@ == line(old(self)@, branch_line(r as nat, l as nat)),
            final(self).register_counter == old(self).register_counter,
            final(self).label_counter == old(self).label_counter,
    {
        let mut t: Vec<char> = Vec::new();
        push_text(&mut t, "JMP_IF_NOT_ZERO R");
        push_decimal(&mut t, r as u64);
        push_text(&mut t, ", label_");
        push_decimal(&mut t, l as u64);
        proof {
            reveal_strlit("JMP_IF_NOT_ZERO R");
            reveal_strlit("JMP_IF_NOT_ZERO ");
            reveal_strlit(", label_");
            reveal_strlit(", ");
            reveal_strlit("label_");
            assert(t@ =~= branch_line(r as nat, l as nat));
        }
        self.emit_text(&t);
    }

    /// Emits the loop header for loop variable register `i`, scratch
    /// register `t`, start register `s`, end register `e` and labels `l`,
    /// `l + 1` and `l + 2`.
    fn emit_loop_head(&mut self, i: usize, t: usize, s: usize, e: usize, l: usize, inclusive: bool)
        requires
            l + 2 < usize::MAX,
        ensures
            final(self)@ == loop_head(old(self)@, i as nat, t as nat, s as nat, e as nat, l as nat, inclusive),
            final(self).register_counter == old(self).register_counter,
            final(self).label_counter == old(self).label_counter,
    {
        self.emit_op("MOV", i, s);
        if inclusive {
            self.emit_load(t, 1);
            self.emit_op("ADD", e, t);
        }
        self.emit_label(l);
        self.emit_op("MOV", t, e);
        self.emit_op("SUB", t, i);
        self.emit_branch(t, l + 1);
        self.emit_jump(l + 2);
        self.emit_label(l + 1);
    }

    fn emit_loop_tail(&mut self, i: usize, t: usize, l: usize)
        requires
            l + 2 < usize::MAX,
        ensures
            final(self)@ == loop_tail(old(self)@, i as nat, t as nat, l as nat),
            final(self).register_counter == old(self).register_counter,
            final(self).label_counter == old(self).label_counter,
    {
        self.emit_load(t, 1);
        self.emit_op("ADD", i, t);
        self.emit_jump(l);
        self.emit_label(l + 2);
    }

    /// Takes the next free register.
    fn allocate_register(&mut self) -> (r: Result<usize, CodegenError>)
        requires
            old(self).wf(),
        ensures
            old(self).register_counter >= NUM_REGISTERS ==> r == Err::<usize, CodegenError>(
                CodegenError::OutOfRegisters,
            ) && *final(self) == *old(self),
            old(self).register_counter < NUM_REGISTERS ==> r == Ok::<usize, CodegenError>(
                old(self).register_counter,
            ) && final(self)@ == (GenState { next_reg: old(self)@.next_reg + 1, ..old(self)@ })
                && final(self).wf(),
    {
        if self.register_counter >= NUM_REGISTERS {
            return Err(CodegenError::OutOfRegisters);
        }
        let reg = self.register_counter;
        self.register_counter = self.register_counter + 1;
        Ok(reg)
    }

    /// The register bound to `name` last, if any.
    fn lookup(&self, name: &String) -> (r: Option<usize>)
        ensures
            r matches Some(x) ==> find_var(self@.vars, name@) == Some(x as nat),
            r is None <==> find_var(self@.vars, name@) is None,
    {
        let mut found: Option<usize> = None;
        let mut i: usize = 0;
        while i < self.variable_map.len()
            invariant
                i <= self.variable_map@.len(),
                found matches Some(x) ==> find_var(vars_view(self.variable_map@.take(i as int)), name@)
                    == Some(x as nat),
                found is None <==> find_var(vars_view(self.variable_map@.take(i as int)), name@) is None,
            decreases self.variable_map@.len() - i,
        {
            assert(vars_view(self.variable_map@.take(i + 1)).drop_last() =~= vars_view(self.variable_map@.take(i as int)));
            if str_eq(self.variable_map[i].0.as_str(), name.as_str()) {
                found = Some(self.variable_map[i].1);
            }
            i = i + 1;
        }
        assert(self.variable_map@.take(i as int) =~= self.variable_map@);
        found
    }

    /// Stores register `value_reg` under `name`.
    fn assign_variable(&mut self, name: &String, value_reg: usize)
        requires
            old(self).wf(),
        ensures
            final(self).wf(),
            final(self)@ == assign(old(self)@, name@, value_reg as nat),
    {
        match self.lookup(name) {
            Some(t) => self.emit_op("MOV", t, value_reg),
            None => {
                let ghost before = self.variable_map@;
                self.variable_map.push((name.clone(), value_reg));
                assert(vars_view(self.variable_map@) =~= vars_view(before).push((name@, value_reg as nat)));
            },
        }
    }

    fn generate_number(&mut self, value: i32) -> (r: Result<usize, CodegenError>)
        requires
            old(self).wf(),
        ensures
            match gen_expr(old(self)@, NodeView::Number(value)) {
                Ok((s, reg)) => r matches Ok(x) && x as nat == reg && final(self)@ == s && final(self).wf(),
                Err(e) => r == Err::<usize, CodegenError>(e),
            },
    {
        let reg = match self.allocate_register() {
            Ok(reg) => reg,
            Err(e) => return Err(e),
        };
        self.emit_load(reg, value);
        Ok(reg)
    }

    fn generate_identifier(&mut self, name: &String) -> (r: Result<usize, CodegenError>)
        requires
            old(self).wf(),
        ensures
            match gen_expr(old(self)@, NodeView::Identifier(name@)) {
                Ok((s, reg)) => r matches Ok(x) && x as nat == reg && final(self)@ == s && final(self).wf(),
                Err(e) => r == Err::<usize, CodegenError>(e),
            },
    {
        let existing = match self.lookup(name) {
            Some(v) => v,
            None => return Err(CodegenError::UndefinedVariable),
        };
        let reg = match self.allocate_register() {
            Ok(reg) => reg,
            Err(e) => return Err(e),
        };
        self.emit_op("MOV", reg, existing);
        Ok(reg)
    }

    /// Lowers an expression into a new register and returns that register.
    fn generate_expression(&mut self, node: &ASTNode) -> (r: Result<usize, CodegenError>)
        requires
            old(self).wf(),
        ensures
            match gen_expr(old(self)@, node@) {
                Ok((s, reg)) => r matches Ok(x) && x as nat == reg && final(self)@ == s && final(self).wf(),
                Err(e) => r == Err::<usize, CodegenError>(e),
            },
        decreases node,
    {
        match node {
            ASTNode::Number(n) => self.generate_number(*n),
            ASTNode::Identifier(name) => self.generate_identifier(name),
            ASTNode::BinaryOp { op, left, right } => {
                let m = if str_eq(op.as_str(), "+") {
                    "ADD"
                } else if str_eq(op.as_str(), "-") {
                    "SUB"
                } else if str_eq(op.as_str(), "*") {
                    "MUL"
                } else if str_eq(op.as_str(), "/") {
                    "DIV"
                } else {
                    return Err(CodegenError::UnsupportedOperator);
                };
                assert(op_mnemonic(op@) == Some(m@));
                let a = match self.generate_expression(left) {
                    Ok(a) => a,
                    Err(e) => return Err(e),
                };
                let b = match self.generate_expression(right) {
                    Ok(b) => b,
                    Err(e) => return Err(e),
                };
                self.emit_op(m, a, b);
                Ok(a)
            },
            _ => Err(CodegenError::UnsupportedNode),
        }
    }

    /// Lowers one statement.
    fn generate_node(&mut self, node: &ASTNode) -> (r: Result<(), CodegenError>)
        requires
            old(self).wf(),
        ensures
            match gen_stmt(old(self)@, node@) {
                Ok(s) => r is Ok && final(self)@ == s && final(self).wf(),
                Err(e) => r == Err::<(), CodegenError>(e),
            },
        decreases node, 2int,
    {
        match node {
            ASTNode::VariableDeclaration { mutable: _, name, value } => {
                if let Some(expr) = value {
                    match self.generate_expression(expr) {
                        Ok(v) => self.assign_variable(name, v),
                        Err(e) => return Err(e),
                    }
                }
                Ok(())
            },
            ASTNode::Assignment { target, value } => {
                match self.generate_expression(value) {
                    Ok(v) => self.assign_variable(target, v),
                    Err(e) => return Err(e),
                }
                Ok(())
            },
            ASTNode::Print(args) => self.generate_print(args),
            ASTNode::ForLoop { .. } => self.generate_loop(node),
            _ => {
                match self.generate_expression(node) {
                    Ok(_) => Ok(()),
                    Err(e) => Err(e),
                }
            },
        }
    }

    /// Lowers the statements of a loop body in order.
    fn generate_body(&mut self, body: &Vec<ASTNode>) -> (r: Result<(), CodegenError>)
        requires
            old(self).wf(),
        ensures
            match gen_seq(old(self)@, node_views(body@)) {
                Ok(s) => r is Ok && final(self)@ == s && final(self).wf(),
                Err(e) => r == Err::<(), CodegenError>(e),
            },
        decreases body, 0int,
    {
        let ghost bvs = node_views(body@);
        proof {
            lemma_node_views_len(body@);
        }
        let mut j: usize = 0;
        assert(bvs.subrange(0, bvs.len() as int) =~= bvs);
        while j < body.len()
            invariant
                self.wf(),
                j <= body@.len(),
                bvs == node_views(body@),
                bvs.len() == body@.len(),
                gen_seq(old(self)@, bvs) == gen_seq(self@, bvs.subrange(j as int, bvs.len() as int)),
            decreases body@.len() - j,
        {
            proof {
                lemma_node_views_index(body@, j as int);
                lemma_gen_seq_step(self@, bvs, j as int);
                broadcast use vstd::std_specs::vec::axiom_vec_index_decreases;
            }
            if let Err(e) = self.generate_node(&body[j]) {
                return Err(e);
            }
            j = j + 1;
        }
        assert(bvs.subrange(j as int, bvs.len() as int) =~= Seq::<NodeView>::empty());
        Ok(())
    }

    /// Evaluates and prints each argument in turn.
    fn generate_print(&mut self, args: &Vec<ASTNode>) -> (r: Result<(), CodegenError>)
        requires
            old(self).wf(),
        ensures
            match gen_prints(old(self)@, node_views(args@)) {
                Ok(s) => r is Ok && final(self)@ == s && final(self).wf(),
                Err(e) => r == Err::<(), CodegenError>(e),
            },
    {
        let ghost avs = node_views(args@);
        proof {
            lemma_node_views_len(args@);
        }
        let mut i: usize = 0;
        assert(avs.subrange(0, avs.len() as int) =~= avs);
        while i < args.len()
            invariant
                self.wf(),
                i <= args@.len(),
                avs == node_views(args@),
                avs.len() == args@.len(),
                gen_prints(old(self)@, avs) == gen_prints(self@, avs.subrange(i as int, avs.len() as int)),
            decreases args@.len() - i,
        {
            proof {
                lemma_node_views_index(args@, i as int);
                assert(avs.subrange(i as int, avs.len() as int).subrange(1, avs.len() - i) =~= avs.subrange(
                    i + 1,
                    avs.len() as int,
                ));
            }
            let ghost st = self@;
            let r = match self.generate_expression(&args[i]) {
                Ok(r) => r,
                Err(e) => return Err(e),
            };
            self.emit_print(r);
            assert(gen_prints(st, avs.subrange(i as int, avs.len() as int)) == gen_prints(
                self@,
                avs.subrange(i + 1, avs.len() as int),
            ));
            i = i + 1;
        }
        assert(avs.subrange(i as int, avs.len() as int) =~= Seq::<NodeView>::empty());
        Ok(())
    }

    /// Lowers a counting loop: the loop variable runs from the start value
    /// while it differs from the end value, one more when the range is
    /// inclusive; its binding ends with the loop.
    fn generate_loop(&mut self, node: &ASTNode) -> (r: Result<(), CodegenError>)
        requires
            old(self).wf(),
            node is ForLoop,
        ensures
            match gen_stmt(old(self)@, node@) {
                Ok(s) => r is Ok && final(self)@ == s && final(self).wf(),
                Err(e) => r == Err::<(), CodegenError>(e),
            },
        decreases node, 1int,
    {
        let ASTNode::ForLoop { variable, start, end, inclusive, body } = node else {
            return Ok(());
        };
        let rs = match self.generate_expression(start) {
            Ok(r) => r,
            Err(e) => return Err(e),
        };
        let re = match self.generate_expression(end) {
            Ok(r) => r,
            Err(e) => return Err(e),
        };
        if self.register_counter + 2 > NUM_REGISTERS {
            return Err(CodegenError::OutOfRegisters);
        }
        let i = self.register_counter;
        let t = i + 1;
        self.register_counter = i + 2;
        let l = self.label_counter;
        self.label_counter = l + 3;
        let k = self.variable_map.len();
        let ghost vb = self.variable_map@;
        self.variable_map.push((variable.clone(), i));
        assert(vars_view(self.variable_map@) =~= vars_view(vb).push((variable@, i as nat)));
        self.emit_loop_head(i, t, rs, re, l, *inclusive);
        let ghost s4 = self@;
        let ghost pre = vars_view(self.variable_map@);
        proof {
            broadcast use vstd::std_specs::vec::axiom_vec_decreases_to_view;
        }
        if let Err(e) = self.generate_body(body) {
            return Err(e);
        }
        proof {
            lemma_gen_seq_vars(s4, node_views(body@));
            assert(vars_view(self.variable_map@).take(k as int) =~= pre.take(k as int));
            assert(pre.take(k as int) =~= vars_view(vb));
        }
        self.emit_loop_tail(i, t, l);
        let ghost vm = vars_view(self.variable_map@);
        self.variable_map.truncate(k);
        assert(vars_view(self.variable_map@) =~= vm.take(k as int));
        Ok(())
    }
}

pub proof fn lemma_node_views_len(s: Seq<ASTNode>)
    ensures
        node_views(s).len() == s.len(),
    decreases s.len(),
{
    if s.len() > 0 {
        lemma_node_views_len(s.subrange(0, s.len() - 1));
    }
}

pub proof fn lemma_node_views_index(s: Seq<ASTNode>, i: int)
    requires
        0 <= i < s.len(),
    ensures
        node_views(s)[i] == s[i]@,
    decreases s.len(),
{
    lemma_node_views_len(s.subrange(0, s.len() - 1));
    if i < s.len() - 1 {
        lemma_node_views_index(s.subrange(0, s.len() - 1), i);
    }
}

proof fn lemma_gen_expr_vars(st: GenState, n: NodeView)
    ensures
        gen_expr(st, n) matches Ok((s, r)) ==> s.vars == st.vars,
    decreases n,
{
    if let NodeView::BinaryOp { op, left, right } = n {
        lemma_gen_expr_vars(st, *left);
        if let Ok((s1, a)) = gen_expr(st, *left) {
            lemma_gen_expr_vars(s1, *right);
        }
    }
}

proof fn lemma_gen_prints_vars(st: GenState, args: Seq<NodeView>)
    ensures
        gen_prints(st, args) matches Ok(s) ==> s.vars == st.vars,
    decreases args.len(),
{
    if args.len() > 0 {
        lemma_gen_expr_vars(st, args[0]);
        if let Ok((s1, r)) = gen_expr(st, args[0]) {
            lemma_gen_prints_vars(line(s1, print_line(r)), args.subrange(1, args.len() as int));
        }
    }
}

/// A statement keeps every binding made before it.
proof fn lemma_gen_stmt_vars(st: GenState, n: NodeView)
    ensures
        gen_stmt(st, n) matches Ok(s) ==> s.vars.len() >= st.vars.len() && s.vars.take(
            st.vars.len() as int,
        ) == st.vars,
{
    match n {
        NodeView::VariableDeclaration { mutable, name, value } => {
            if let Some(e) = value {
                lemma_gen_expr_vars(st, *e);
            }
        },
        NodeView::Assignment { target, value } => {
            lemma_gen_expr_vars(st, *value);
        },
        NodeView::Print(args) => {
            lemma_gen_prints_vars(st, args);
        },
        NodeView::ForLoop { variable, start, end, inclusive, body } => {
            lemma_gen_expr_vars(st, *start);
            if let Ok((s1, rs)) = gen_expr(st, *start) {
                lemma_gen_expr_vars(s1, *end);
            }
        },
        _ => {
            lemma_gen_expr_vars(st, n);
        },
    }
    if let Ok(s) = gen_stmt(st, n) {
        assert(s.vars.take(st.vars.len() as int) =~= st.vars);
    }
}

/// A sequence of statements keeps every binding made before it.
proof fn lemma_gen_seq_vars(st: GenState, s: Seq<NodeView>)
    ensures
        gen_seq(st, s) matches Ok(x) ==> x.vars.len() >= st.vars.len() && x.vars.take(
            st.vars.len() as int,
        ) == st.vars,
    decreases s.len(),
{
    if s.len() > 0 {
        lemma_gen_stmt_vars(st, s[0]);
        if let Ok(s1) = gen_stmt(st, s[0]) {
            lemma_gen_seq_vars(s1, s.subrange(1, s.len() as int));
            if let Ok(x) = gen_seq(s1, s.subrange(1, s.len() as int)) {
                assert(x.vars.take(st.vars.len() as int) =~= x.vars.take(s1.vars.len() as int).take(
                    st.vars.len() as int,
                ));
            }
        }
    }
}

proof fn lemma_gen_seq_step(st: GenState, s: Seq<NodeView>, i: int)
    requires
        0 <= i < s.len(),
    ensures
        gen_seq(st, s.subrange(i, s.len() as int)) == match gen_stmt(st, s[i]) {
            Err(err) => Err(err),
            Ok(s1) => gen_seq(s1, s.subrange(i + 1, s.len() as int)),
        },
{
    let t = s.subrange(i, s.len() as int);
    assert(t[0] == s[i]);
    assert(t.subrange(1, t.len() as int) =~= s.subrange(i + 1, s.len() as int));
}

} // verus!
