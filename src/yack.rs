//! Decompiler for the dialogue bytecode ("yack"). The bytes are read into
//! instructions, and an explicit decompiler state turns each instruction
//! into indented pseudoscript lines, rebuilding if/else blocks from jumps
//! and labels.
use vstd::prelude::*;
use vstd::string::{StrSliceExecFns, StringExecFns};

use crate::easy_br::{fits, nul_from, read_cstring, read_u32_le, text_at, u32_le};
use crate::error::DinkyError;

verus! {

/// The opcodes of the dialogue bytecode.
#[derive(Debug, Clone, Copy, PartialEq, Eq, Structural)]
pub enum YackOpcode {
    End,
    ActorSay,
    Assign,
    Pause,
    WaitFor,
    EmitCode,
    DefineLabel,
    GotoLabel,
    EndChoices,
    StartChoices,
    ElseGoto,
    Reply1,
    Reply2,
    Reply3,
    Reply4,
    Reply5,
    Reply6,
    Reply7,
    Reply8,
    Reply9,
    Unknown,
}

/// The opcode that a raw byte stands for.
pub open spec fn opcode_of(b: u8) -> YackOpcode {
    match b {
        0 => YackOpcode::End,
        1 => YackOpcode::ActorSay,
        2 => YackOpcode::Assign,
        5 => YackOpcode::Pause,
        7 => YackOpcode::WaitFor,
        8 => YackOpcode::EmitCode,
        9 => YackOpcode::DefineLabel,
        10 => YackOpcode::GotoLabel,
        11 => YackOpcode::EndChoices,
        12 => YackOpcode::StartChoices,
        19 => YackOpcode::ElseGoto,
        100 => YackOpcode::Reply1,
        101 => YackOpcode::Reply2,
        102 => YackOpcode::Reply3,
        103 => YackOpcode::Reply4,
        104 => YackOpcode::Reply5,
        105 => YackOpcode::Reply6,
        106 => YackOpcode::Reply7,
        107 => YackOpcode::Reply8,
        108 => YackOpcode::Reply9,
        _ => YackOpcode::Unknown,
    }
}

impl YackOpcode {
    pub fn from_byte(b: u8) -> (r: YackOpcode)
        ensures
            r == opcode_of(b),
    {
        match b {
            0 => YackOpcode::End,
            1 => YackOpcode::ActorSay,
            2 => YackOpcode::Assign,
            5 => YackOpcode::Pause,
            7 => YackOpcode::WaitFor,
            8 => YackOpcode::EmitCode,
            9 => YackOpcode::DefineLabel,
            10 => YackOpcode::GotoLabel,
            11 => YackOpcode::EndChoices,
            12 => YackOpcode::StartChoices,
            19 => YackOpcode::ElseGoto,
            100 => YackOpcode::Reply1,
            101 => YackOpcode::Reply2,
            102 => YackOpcode::Reply3,
            103 => YackOpcode::Reply4,
            104 => YackOpcode::Reply5,
            105 => YackOpcode::Reply6,
            106 => YackOpcode::Reply7,
            107 => YackOpcode::Reply8,
            108 => YackOpcode::Reply9,
            _ => YackOpcode::Unknown,
        }
    }
}

/// Whether a raw opcode is one of the numbered dialogue replies.
pub open spec fn is_reply(b: u8) -> bool {
    100 <= b <= 108
}

/// What an instruction holds once its string indices are resolved.
pub struct InstructionView {
    pub opcode: u8,
    pub conditions: Seq<Seq<char>>,
    pub arg0: Option<Seq<char>>,
    pub arg1: Option<Seq<char>>,
}

/// The decompiler's state between two instructions.
pub struct DecompilerView {
    /// Current indentation depth.
    pub depth: nat,
    /// A block opened by the previous instruction must be closed first.
    pub pending: bool,
    /// Labels whose definition turns into an `else`/`endif`.
    pub labels: Seq<Seq<char>>,
}

pub open spec fn strings_view(v: Seq<String>) -> Seq<Seq<char>> {
    v.map_values(|s: String| s@)
}

pub open spec fn opt_view(o: Option<String>) -> Option<Seq<char>> {
    match o {
        Some(s) => Some(s@),
        None => None,
    }
}

/// A decoded instruction.
pub struct Instruction {
    pub opcode: u8,
    pub conditions: Vec<String>,
    pub arg0: Option<String>,
    pub arg1: Option<String>,
}

impl View for Instruction {
    type V = InstructionView;

    open spec fn view(&self) -> InstructionView {
        InstructionView {
            opcode: self.opcode,
            conditions: strings_view(self.conditions@),
            arg0: opt_view(self.arg0),
            arg1: opt_view(self.arg1),
        }
    }
}

/// The explicit state threaded through decompilation.
pub struct DecompilerState {
    pub depth: usize,
    pub pending_close: bool,
    pub else_labels: Vec<String>,
}

impl View for DecompilerState {
    type V = DecompilerView;

    open spec fn view(&self) -> DecompilerView {
        DecompilerView {
            depth: self.depth as nat,
            pending: self.pending_close,
            labels: strings_view(self.else_labels@),
        }
    }
}

pub open spec fn initial_state() -> DecompilerView {
    DecompilerView { depth: 0, pending: false, labels: Seq::empty() }
}

pub open spec fn indent(depth: nat) -> Seq<char> {
    Seq::new(depth, |i: int| '\t')
}

/// A line of output: the text after `depth` tabs.
pub open spec fn line(depth: nat, text: Seq<char>) -> Seq<char> {
    indent(depth) + text
}

/// The texts joined with `sep` between neighbours.
pub open spec fn join(xs: Seq<Seq<char>>, sep: Seq<char>) -> Seq<char>
    decreases xs.len(),
{
    if xs.len() == 0 {
        Seq::empty()
    } else if xs.len() == 1 {
        xs[0]
    } else {
        join(xs.drop_last(), sep) + sep + xs.last()
    }
}

/// A guard list: the conditions OR-joined in brackets.
pub open spec fn guard(conds: Seq<Seq<char>>) -> Seq<char> {
    "["@ + join(conds, " || "@) + "]"@
}

pub open spec fn digit_text(d: int) -> Seq<char> {
    if d == 0 {
        "0"@
    } else if d == 1 {
        "1"@
    } else if d == 2 {
        "2"@
    } else if d == 3 {
        "3"@
    } else if d == 4 {
        "4"@
    } else if d == 5 {
        "5"@
    } else if d == 6 {
        "6"@
    } else if d == 7 {
        "7"@
    } else if d == 8 {
        "8"@
    } else {
        "9"@
    }
}

/// The decimal digits of `n`.
pub open spec fn decimal(n: nat) -> Seq<char>
    decreases n,
{
    if n < 10 {
        digit_text(n as int)
    } else {
        decimal(n / 10) + digit_text((n % 10) as int)
    }
}

pub open spec fn show_operand(o: Option<Seq<char>>) -> Seq<char> {
    match o {
        Some(t) => "Some("@ + t + ")"@,
        None => "None"@,
    }
}

/// The diagnostic text for an opcode that is not understood.
pub open spec fn unknown_text(ins: InstructionView) -> Seq<char> {
    "?? Unknown opcode "@ + decimal(ins.opcode as nat) + " cond=["@ + join(ins.conditions, ", "@)
        + "] arg1="@ + show_operand(ins.arg0) + " arg2="@ + show_operand(ins.arg1)
}

pub open spec fn reply_text(ins: InstructionView, text: Seq<char>, target: Seq<char>) -> Seq<char> {
    let head = digit_text(ins.opcode - 99) + " SAY("@ + text + ") -> "@ + target;
    if ins.conditions.len() > 0 {
        head + " "@ + guard(ins.conditions)
    } else {
        head
    }
}

pub open spec fn dec(d: nat) -> nat {
    if d == 0 {
        0
    } else {
        (d - 1) as nat
    }
}

/// Closes a block left open by the previous instruction: before an
/// `ElseGoto` it becomes an `else` prefix of the next line, before anything
/// else an `endif` line. Gives the new state, the lines and the prefix.
pub open spec fn close_pending(s: DecompilerView, opcode: u8) -> (DecompilerView, Seq<Seq<char>>, Seq<char>) {
    if !s.pending {
        (s, Seq::empty(), Seq::empty())
    } else {
        let t = DecompilerView { depth: dec(s.depth), pending: false, ..s };
        if opcode == 19 {
            (t, Seq::empty(), "else "@)
        } else {
            (t, seq![line(t.depth, "endif"@)], Seq::empty())
        }
    }
}

/// Renders one instruction once any pending block is closed; `None` when an
/// operand it needs is absent.
pub open spec fn render(s: DecompilerView, ins: InstructionView, prefix: Seq<char>) -> Option<(DecompilerView, Seq<Seq<char>>)> {
    let d = s.depth;
    match opcode_of(ins.opcode) {
        YackOpcode::ActorSay => match (ins.arg0, ins.arg1) {
            (Some(a), Some(b)) => Some((s, seq![line(d, a + ": SAY("@ + b + ")"@)])),
            _ => None,
        },
        YackOpcode::Assign => match (ins.arg0, ins.arg1) {
            (Some(a), Some(b)) => Some((s, seq![line(d, a + " <- "@ + b)])),
            _ => None,
        },
        YackOpcode::Pause => match ins.arg0 {
            Some(a) => Some((s, seq![line(d, "pause "@ + a)])),
            None => None,
        },
        YackOpcode::WaitFor => match ins.arg0 {
            Some(a) => Some((s, seq![line(d, "waitfor "@ + a)])),
            None => None,
        },
        YackOpcode::EmitCode => match ins.arg0 {
            Some(code) => if ins.conditions.len() > 0 {
                Some((
                    DecompilerView { depth: d + 1, pending: true, ..s },
                    seq![line(d, "if "@ + guard(ins.conditions)), line(d + 1, code)],
                ))
            } else {
                Some((s, seq![line(d, code)]))
            },
            None => None,
        },
        YackOpcode::DefineLabel => match ins.arg0 {
            Some(label) => if s.labels.len() > 0 && s.labels.last() == label {
                Some((DecompilerView { pending: true, labels: s.labels.drop_last(), ..s }, Seq::empty()))
            } else {
                Some((s, seq![Seq::empty(), line(d, "==="@ + label + "==="@)]))
            },
            None => None,
        },
        YackOpcode::GotoLabel => match ins.arg0 {
            Some(a) => Some((s, seq![line(d, "-> "@ + a)])),
            None => None,
        },
        YackOpcode::EndChoices => Some((
            DecompilerView { depth: dec(d), ..s },
            seq![line(dec(d), "end dialogue"@)],
        )),
        YackOpcode::StartChoices => Some((
            DecompilerView { depth: d + 1, ..s },
            seq![line(d, "begin dialogue"@)],
        )),
        YackOpcode::ElseGoto => match ins.arg0 {
            Some(target) => Some((
                DecompilerView { depth: d + 1, labels: s.labels.push(target), ..s },
                seq![line(d, prefix + "if "@ + guard(ins.conditions))],
            )),
            None => None,
        },
        YackOpcode::Unknown => Some((s, seq![line(d, unknown_text(ins))])),
        YackOpcode::End => Some((s, Seq::empty())),
        _ => match (ins.arg0, ins.arg1) {
            (Some(a), Some(b)) => Some((s, seq![line(d, reply_text(ins, a, b))])),
            _ => None,
        },
    }
}

/// One decompiler step: the state after an instruction and the lines it emits.
pub open spec fn step(s: DecompilerView, ins: InstructionView) -> Option<(DecompilerView, Seq<Seq<char>>)> {
    let (s1, closing, prefix) = close_pending(s, ins.opcode);
    match render(s1, ins, prefix) {
        Some((s2, lines)) => Some((s2, closing + lines)),
        None => None,
    }
}

/// How a condition is shown: a one-shot guard (text starting with `?`)
/// reads `once`.
pub open spec fn condition_text(t: Seq<char>) -> Seq<char> {
    if t.len() > 0 && t[0] == '?' {
        "once"@
    } else {
        t
    }
}

/// Whether a raw operand (an `i32` read as its unsigned bits) is absent
/// (`-1`) or a valid index into a table of `n` strings.
pub open spec fn operand_ok(raw: int, n: int) -> bool {
    raw == 0xFFFF_FFFF || (raw < 0x8000_0000 && raw < n)
}

pub open spec fn operand(raw: int, table: Seq<Seq<char>>) -> Option<Seq<char>> {
    if raw == 0xFFFF_FFFF {
        None
    } else {
        Some(table[raw])
    }
}

/// The byte length of the record at `p`: opcode, sequence number,
/// condition count, the conditions and two operands.
pub open spec fn record_len(data: Seq<u8>, p: int) -> int {
    18 + 4 * data[p + 9]
}

pub open spec fn cond_index(data: Seq<u8>, p: int, k: int) -> int {
    u32_le(data, p + 10 + 4 * k)
}

/// The instruction whose record starts at `p`; `None` when the record is
/// truncated or one of its indices is out of range.
pub open spec fn instruction_at(data: Seq<u8>, table: Seq<Seq<char>>, p: int) -> Option<InstructionView> {
    if !fits(data, p, 10) || !fits(data, p, record_len(data, p)) {
        None
    } else {
        let cc = data[p + 9] as int;
        let a0 = u32_le(data, p + 10 + 4 * cc);
        let a1 = u32_le(data, p + 14 + 4 * cc);
        if (forall|k: int| 0 <= k < cc ==> #[trigger] cond_index(data, p, k) < table.len())
            && operand_ok(a0, table.len() as int) && operand_ok(a1, table.len() as int) {
            Some(
                InstructionView {
                    opcode: data[p],
                    conditions: Seq::new(
                        cc as nat,
                        |k: int| condition_text(table[cond_index(data, p, k)]),
                    ),
                    arg0: operand(a0, table),
                    arg1: operand(a1, table),
                },
            )
        } else {
            None
        }
    }
}

/// `n` consecutive zero-terminated strings starting at `p`.
pub open spec fn strings_from(data: Seq<u8>, p: int, n: nat) -> Option<Seq<Seq<char>>>
    decreases n,
{
    if n == 0 {
        Some(Seq::empty())
    } else {
        match (text_at(data, p), nul_from(data, p)) {
            (Some(t), Some(e)) => match strings_from(data, e + 1, (n - 1) as nat) {
                Some(rest) => Some(seq![t] + rest),
                None => None,
            },
            _ => None,
        }
    }
}

/// The script's local string pool: a marker, a count, then the strings, at
/// the offset given by the header's second word.
pub open spec fn string_table(data: Seq<u8>) -> Option<Seq<Seq<char>>> {
    if !fits(data, 0, 8) {
        None
    } else {
        let t = u32_le(data, 4);
        if !fits(data, t, 8) {
            None
        } else {
            strings_from(data, t + 8, u32_le(data, t + 4) as nat)
        }
    }
}

pub open spec fn prepend(xs: Seq<Seq<char>>, rest: Option<Seq<Seq<char>>>) -> Option<Seq<Seq<char>>> {
    match rest {
        Some(r) => Some(xs + r),
        None => None,
    }
}

/// The lines that close a block still pending when the script ends.
pub open spec fn close_at_end(s: DecompilerView) -> Seq<Seq<char>> {
    if s.pending {
        seq![line(dec(s.depth), "endif"@)]
    } else {
        Seq::empty()
    }
}

/// The lines produced from position `p` on, until an `End` opcode or the
/// end of the data, where a block still pending is closed.
pub open spec fn run(data: Seq<u8>, table: Seq<Seq<char>>, p: int, s: DecompilerView) -> Option<Seq<Seq<char>>>
    decreases data.len() - p,
{
    if p < 0 || p >= data.len() || data[p] == 0 {
        Some(close_at_end(s))
    } else {
        match instruction_at(data, table, p) {
            None => None,
            Some(ins) => match step(s, ins) {
                None => None,
                Some((s2, lines)) => prepend(lines, run(data, table, p + record_len(data, p), s2)),
            },
        }
    }
}

/// The pseudoscript of a decoded dialogue script, or `None` when its bytes
/// break the layout.
pub open spec fn decompiled(data: Seq<u8>) -> Option<Seq<Seq<char>>> {
    match string_table(data) {
        Some(table) => run(data, table, 8, initial_state()),
        None => None,
    }
}

proof fn lemma_prepend_assoc(a: Seq<Seq<char>>, b: Seq<Seq<char>>, rest: Option<Seq<Seq<char>>>)
    ensures
        prepend(a, prepend(b, rest)) == prepend(a + b, rest),
{
    if let Some(r) = rest {
        assert(a + (b + r) =~= (a + b) + r);
    }
}

proof fn lemma_step_depth(s: DecompilerView, ins: InstructionView)
    ensures
        step(s, ins) matches Some((s2, lines)) ==> s2.depth <= s.depth + 1,
{
}

proof fn lemma_push_view(v: Seq<String>, x: String)
    ensures
        strings_view(v.push(x)) == strings_view(v).push(x@),
{
    assert(strings_view(v.push(x)) =~= strings_view(v).push(x@));
}

fn digit_string(d: u8) -> (r: String)
    requires
        d < 10,
    ensures
        r@ == digit_text(d as int),
{
    if d == 0 {
        String::from_str("0")
    } else if d == 1 {
        String::from_str("1")
    } else if d == 2 {
        String::from_str("2")
    } else if d == 3 {
        String::from_str("3")
    } else if d == 4 {
        String::from_str("4")
    } else if d == 5 {
        String::from_str("5")
    } else if d == 6 {
        String::from_str("6")
    } else if d == 7 {
        String::from_str("7")
    } else if d == 8 {
        String::from_str("8")
    } else {
        String::from_str("9")
    }
}

/// The decimal digits of `n`.
pub fn decimal_string(n: u32) -> (r: String)
    ensures
        r@ == decimal(n as nat),
    decreases n,
{
    if n < 10 {
        digit_string(n as u8)
    } else {
        let mut r = decimal_string(n / 10);
        let last = digit_string((n % 10) as u8);
        r.append(last.as_str());
        r
    }
}

fn indent_string(depth: usize) -> (r: String)
    ensures
        r@ == indent(depth as nat),
{
    let mut r = String::new();
    let mut i: usize = 0;
    while i < depth
        invariant
            i <= depth,
            r@ == indent(i as nat),
        decreases depth - i,
    {
        proof {
            reveal_strlit("\t");
        }
        r.append("\t");
        assert(r@ =~= indent((i + 1) as nat));
        i = i + 1;
    }
    r
}

fn join_strings(xs: &Vec<String>, sep: &str) -> (r: String)
    ensures
        r@ == join(strings_view(xs@), sep@),
{
    let mut r = String::new();
    let mut i: usize = 0;
    while i < xs.len()
        invariant
            i <= xs@.len(),
            r@ == join(strings_view(xs@).take(i as int), sep@),
        decreases xs@.len() - i,
    {
        let ghost before = strings_view(xs@).take(i as int);
        let ghost after = strings_view(xs@).take(i + 1);
        assert(after.drop_last() =~= before);
        if i > 0 {
            r.append(sep);
        }
        r.append(xs[i].as_str());
        proof {
            if i == 0 {
                assert(r@ =~= join(after, sep@));
            }
        }
        i = i + 1;
    }
    assert(strings_view(xs@).take(xs@.len() as int) =~= strings_view(xs@));
    r
}

fn guard_string(conds: &Vec<String>) -> (r: String)
    ensures
        r@ == guard(strings_view(conds@)),
{
    let mut r = String::from_str("[");
    let inner = join_strings(conds, " || ");
    r.append(inner.as_str());
    r.append("]");
    r
}

fn operand_string(o: &Option<String>) -> (r: String)
    ensures
        r@ == show_operand(opt_view(*o)),
{
    match o {
        Some(t) => {
            let mut r = String::from_str("Some(");
            r.append(t.as_str());
            r.append(")");
            r
        },
        None => String::from_str("None"),
    }
}

/// Appends one line of `text` at indentation `depth`.
fn emit(out: &mut Vec<String>, depth: usize, text: &str)
    ensures
        strings_view(final(out)@) == strings_view(old(out)@).push(line(depth as nat, text@)),
{
    let mut l = indent_string(depth);
    l.append(text);
    proof {
        lemma_push_view(out@, l);
    }
    out.push(l);
}

fn condition_string(t: &String) -> (r: String)
    ensures
        r@ == condition_text(t@),
{
    let s = t.as_str();
    if !s.is_empty() && s.get_char(0) == '?' {
        String::from_str("once")
    } else {
        t.clone()
    }
}

impl DecompilerState {
    pub fn new() -> (r: DecompilerState)
        ensures
            r@ == initial_state(),
    {
        let r = DecompilerState { depth: 0, pending_close: false, else_labels: Vec::new() };
        assert(r@.labels =~= Seq::<Seq<char>>::empty());
        r
    }

    /// Runs one instruction: closes a block left pending, then renders the
    /// instruction, appending its lines to `out`.
    pub fn step(&mut self, ins: &Instruction, out: &mut Vec<String>) -> (r: Result<(), DinkyError>)
        requires
            old(self).depth < usize::MAX,
        ensures
            match step(old(self)@, ins@) {
                Some((s2, lines)) => r is Ok && final(self)@ == s2 && strings_view(final(out)@)
                    == strings_view(old(out)@) + lines,
                None => r == Err::<(), DinkyError>(DinkyError::Format),
            },
    {
        let ghost out0 = strings_view(out@);
        let ghost closed = close_pending(self@, ins.opcode);
        let mut prefix = String::new();
        if self.pending_close {
            if self.depth > 0 {
                self.depth = self.depth - 1;
            }
            self.pending_close = false;
            if ins.opcode == 19 {
                prefix = String::from_str("else ");
            } else {
                emit(out, self.depth, "endif");
            }
        }
        assert(self@ == closed.0);
        assert(strings_view(out@) =~= out0 + closed.1);
        assert(prefix@ == closed.2);
        let ghost out1 = strings_view(out@);
        let ghost rendered = render(self@, ins@, prefix@);
        let d = self.depth;
        match YackOpcode::from_byte(ins.opcode) {
            YackOpcode::ActorSay => match (&ins.arg0, &ins.arg1) {
                (Some(a), Some(b)) => {
                    let mut t = a.clone();
                    t.append(": SAY(");
                    t.append(b.as_str());
                    t.append(")");
                    emit(out, d, t.as_str());
                    assert(strings_view(out@) =~= out1 + rendered->Some_0.1);
                },
                _ => {
                    return Err(DinkyError::Format);
                },
            },
            YackOpcode::Assign => match (&ins.arg0, &ins.arg1) {
                (Some(a), Some(b)) => {
                    let mut t = a.clone();
                    t.append(" <- ");
                    t.append(b.as_str());
                    emit(out, d, t.as_str());
                    assert(strings_view(out@) =~= out1 + rendered->Some_0.1);
                },
                _ => {
                    return Err(DinkyError::Format);
                },
            },
            YackOpcode::Pause => match &ins.arg0 {
                Some(a) => {
                    let mut t = String::from_str("pause ");
                    t.append(a.as_str());
                    emit(out, d, t.as_str());
                    assert(strings_view(out@) =~= out1 + rendered->Some_0.1);
                },
                None => {
                    return Err(DinkyError::Format);
                },
            },
            YackOpcode::WaitFor => match &ins.arg0 {
                Some(a) => {
                    let mut t = String::from_str("waitfor ");
                    t.append(a.as_str());
                    emit(out, d, t.as_str());
                    assert(strings_view(out@) =~= out1 + rendered->Some_0.1);
                },
                None => {
                    return Err(DinkyError::Format);
                },
            },
            YackOpcode::EmitCode => match &ins.arg0 {
                Some(code) => {
                    if ins.conditions.len() > 0 {
                        let mut t = String::from_str("if ");
                        let g = guard_string(&ins.conditions);
                        t.append(g.as_str());
                        emit(out, d, t.as_str());
                        emit(out, d + 1, code.as_str());
                        assert(strings_view(out@) =~= out1 + rendered->Some_0.1);
                        self.depth = d + 1;
                        self.pending_close = true;
                    } else {
                        emit(out, d, code.as_str());
                        assert(strings_view(out@) =~= out1 + rendered->Some_0.1);
                    }
                },
                None => {
                    return Err(DinkyError::Format);
                },
            },
            YackOpcode::DefineLabel => match &ins.arg0 {
                Some(label) => {
                    let n = self.else_labels.len();
                    if n > 0 && self.else_labels[n - 1] == *label {
                        let ghost before = strings_view(self.else_labels@);
                        self.else_labels.pop();
                        self.pending_close = true;
                        assert(strings_view(self.else_labels@) =~= before.drop_last());
                    } else {
                        let blank = String::new();
                        proof {
                            lemma_push_view(out@, blank);
                        }
                        out.push(blank);
                        let mut t = String::from_str("===");
                        t.append(label.as_str());
                        t.append("===");
                        emit(out, d, t.as_str());
                    }
                },
                None => {
                    return Err(DinkyError::Format);
                },
            },
            YackOpcode::GotoLabel => match &ins.arg0 {
                Some(a) => {
                    let mut t = String::from_str("-> ");
                    t.append(a.as_str());
                    emit(out, d, t.as_str());
                    assert(strings_view(out@) =~= out1 + rendered->Some_0.1);
                },
                None => {
                    return Err(DinkyError::Format);
                },
            },
            YackOpcode::EndChoices => {
                if d > 0 {
                    self.depth = d - 1;
                }
                emit(out, self.depth, "end dialogue");
                assert(strings_view(out@) =~= out1 + rendered->Some_0.1);
            },
            YackOpcode::StartChoices => {
                emit(out, d, "begin dialogue");
                assert(strings_view(out@) =~= out1 + rendered->Some_0.1);
                self.depth = d + 1;
            },
            YackOpcode::ElseGoto => match &ins.arg0 {
                Some(target) => {
                    let mut t = prefix;
                    t.append("if ");
                    let g = guard_string(&ins.conditions);
                    t.append(g.as_str());
                    emit(out, d, t.as_str());
                    let tc = target.clone();
                    proof {
                        lemma_push_view(self.else_labels@, tc);
                    }
                    self.else_labels.push(tc);
                    self.depth = d + 1;
                },
                None => {
                    return Err(DinkyError::Format);
                },
            },
            YackOpcode::Unknown => {
                let mut t = String::from_str("?? Unknown opcode ");
                let num = decimal_string(ins.opcode as u32);
                t.append(num.as_str());
                t.append(" cond=[");
                let cs = join_strings(&ins.conditions, ", ");
                t.append(cs.as_str());
                t.append("] arg1=");
                let a0 = operand_string(&ins.arg0);
                t.append(a0.as_str());
                t.append(" arg2=");
                let a1 = operand_string(&ins.arg1);
                t.append(a1.as_str());
                emit(out, d, t.as_str());
                assert(strings_view(out@) =~= out1 + rendered->Some_0.1);
            },
            YackOpcode::End => {
                assert(strings_view(out@) =~= out1 + rendered->Some_0.1);
            },
            _ => match (&ins.arg0, &ins.arg1) {
                (Some(a), Some(b)) => {
                    let mut t = digit_string(ins.opcode - 99);
                    t.append(" SAY(");
                    t.append(a.as_str());
                    t.append(") -> ");
                    t.append(b.as_str());
                    if ins.conditions.len() > 0 {
                        t.append(" ");
                        let g = guard_string(&ins.conditions);
                        t.append(g.as_str());
                    }
                    emit(out, d, t.as_str());
                    assert(strings_view(out@) =~= out1 + rendered->Some_0.1);
                },
                _ => {
                    return Err(DinkyError::Format);
                },
            },
        }
        proof {
            let lines = rendered->Some_0.1;
            assert(strings_view(out@) == out1 + lines);
            assert(out0 + closed.1 + lines =~= out0 + (closed.1 + lines));
        }
        Ok(())
    }
}

fn resolve_operand(raw: u32, table: &Vec<String>) -> (r: Result<Option<String>, DinkyError>)
    ensures
        r is Ok <==> operand_ok(raw as int, table@.len() as int),
        r matches Ok(o) ==> opt_view(o) == operand(raw as int, strings_view(table@)),
        r matches Err(e) ==> e == DinkyError::Format,
{
    if raw == 0xFFFF_FFFF {
        Ok(None)
    } else if raw < 0x8000_0000 && (raw as usize) < table.len() {
        Ok(Some(table[raw as usize].clone()))
    } else {
        Err(DinkyError::Format)
    }
}

/// Reads the instruction whose record starts at `p`, resolving its string
/// indices through the script's string pool.
pub fn read_instruction(data: &[u8], table: &Vec<String>, p: usize) -> (r: Result<Instruction, DinkyError>)
    ensures
        r is Ok <==> instruction_at(data@, strings_view(table@), p as int) is Some,
        r matches Ok(ins) ==> instruction_at(data@, strings_view(table@), p as int) == Some(ins@),
        r matches Err(e) ==> e == DinkyError::Format,
{
    let ghost tv = strings_view(table@);
    if p >= data.len() || data.len() - p < 10 {
        return Err(DinkyError::Format);
    }
    let cc = data[p + 9] as usize;
    if data.len() - p < 18 + 4 * cc {
        return Err(DinkyError::Format);
    }
    let mut conditions: Vec<String> = Vec::new();
    let mut k: usize = 0;
    while k < cc
        invariant
            cc == data@[p + 9],
            tv == strings_view(table@),
            p + 18 + 4 * cc <= data@.len() <= usize::MAX,
            fits(data@, p as int, record_len(data@, p as int)),
            k <= cc,
            conditions@.len() == k,
            forall|j: int| 0 <= j < k ==> #[trigger] cond_index(data@, p as int, j) < tv.len(),
            forall|j: int|
                0 <= j < k ==> strings_view(conditions@)[j] == condition_text(
                    tv[cond_index(data@, p as int, j)],
                ),
        decreases cc - k,
    {
        let idx = match read_u32_le(data, p + 10 + 4 * k) {
            Some(v) => v,
            None => {
                return Err(DinkyError::Format);
            },
        };
        assert(idx == cond_index(data@, p as int, k as int));
        if idx as usize >= table.len() {
            return Err(DinkyError::Format);
        }
        let c = condition_string(&table[idx as usize]);
        proof {
            lemma_push_view(conditions@, c);
        }
        conditions.push(c);
        k = k + 1;
    }
    let raw0 = match read_u32_le(data, p + 10 + 4 * cc) {
        Some(v) => v,
        None => {
            return Err(DinkyError::Format);
        },
    };
    let raw1 = match read_u32_le(data, p + 14 + 4 * cc) {
        Some(v) => v,
        None => {
            return Err(DinkyError::Format);
        },
    };
    let arg0 = match resolve_operand(raw0, table) {
        Ok(o) => o,
        Err(e) => {
            return Err(e);
        },
    };
    let arg1 = match resolve_operand(raw1, table) {
        Ok(o) => o,
        Err(e) => {
            return Err(e);
        },
    };
    let ins = Instruction { opcode: data[p], conditions, arg0, arg1 };
    assert(ins@.conditions =~= Seq::new(
        cc as nat,
        |j: int| condition_text(tv[cond_index(data@, p as int, j)]),
    ));
    Ok(ins)
}

/// Reads the script's local string pool.
pub fn read_string_table(data: &[u8]) -> (r: Result<Vec<String>, DinkyError>)
    ensures
        r is Ok <==> string_table(data@) is Some,
        r matches Ok(t) ==> string_table(data@) == Some(strings_view(t@)),
        r matches Err(e) ==> e == DinkyError::Format,
{
    let t = match read_u32_le(data, 4) {
        Some(v) => v as usize,
        None => {
            return Err(DinkyError::Format);
        },
    };
    if t > data.len() || data.len() - t < 8 {
        return Err(DinkyError::Format);
    }
    let count = match read_u32_le(data, t + 4) {
        Some(c) => c,
        None => {
            return Err(DinkyError::Format);
        },
    };
    let mut strings: Vec<String> = Vec::new();
    let mut pos: usize = t + 8;
    let mut i: u32 = 0;
    while i < count
        invariant
            i <= count,
            string_table(data@) == prepend(
                strings_view(strings@),
                strings_from(data@, pos as int, (count - i) as nat),
            ),
        decreases count - i,
    {
        let ghost rest = strings_from(data@, pos as int, (count - i) as nat);
        match read_cstring(data, pos) {
            Some((s, next)) => {
                proof {
                    lemma_push_view(strings@, s);
                    assert(strings_view(strings@) + (seq![s@] + strings_from(data@, next as int, (count - i - 1) as nat)->Some_0)
                        =~= strings_view(strings@).push(s@) + strings_from(data@, next as int, (count - i - 1) as nat)->Some_0);
                }
                strings.push(s);
                pos = next;
            },
            None => {
                return Err(DinkyError::Format);
            },
        }
        i = i + 1;
    }
    assert(strings_view(strings@) + Seq::empty() =~= strings_view(strings@));
    Ok(strings)
}

/// Decompiles a decoded dialogue script into indented pseudoscript lines.
/// Unknown opcodes become diagnostic lines; a truncated record or an index
/// out of range fails with `Format`.
pub fn parse_yack(data: &Vec<u8>) -> (r: Result<Vec<String>, DinkyError>)
    ensures
        r is Ok <==> decompiled(data@) is Some,
        r matches Ok(lines) ==> decompiled(data@) == Some(strings_view(lines@)),
        r matches Err(e) ==> e == DinkyError::Format,
{
    let bytes = data.as_slice();
    let table = match read_string_table(bytes) {
        Ok(t) => t,
        Err(e) => {
            return Err(e);
        },
    };
    let ghost tv = strings_view(table@);
    let mut state = DecompilerState::new();
    let mut out: Vec<String> = Vec::new();
    let mut p: usize = 8;
    proof {
        if let Some(all) = run(data@, tv, 8, initial_state()) {
            assert(strings_view(out@) + all =~= all);
        }
    }
    while p < bytes.len() && bytes[p] != 0
        invariant
            bytes@ == data@,
            string_table(data@) == Some(tv),
            tv == strings_view(table@),
            8 <= p,
            state.depth <= p,
            decompiled(data@) == prepend(strings_view(out@), run(data@, tv, p as int, state@)),
        decreases bytes@.len() - p,
    {
        let ins = match read_instruction(bytes, &table, p) {
            Ok(i) => i,
            Err(e) => {
                return Err(e);
            },
        };
        let ghost out_before = strings_view(out@);
        let ghost s_before = state@;
        proof {
            lemma_step_depth(state@, ins@);
        }
        match state.step(&ins, &mut out) {
            Ok(()) => {},
            Err(e) => {
                return Err(e);
            },
        }
        proof {
            let lines = step(s_before, ins@)->Some_0.1;
            lemma_prepend_assoc(out_before, lines, run(data@, tv, p + record_len(data@, p as int), state@));
        }
        p = p + 18 + 4 * (bytes[p + 9] as usize);
    }
    let ghost before = strings_view(out@);
    if state.pending_close {
        let d: usize = if state.depth > 0 {
            state.depth - 1
        } else {
            0
        };
        emit(&mut out, d, "endif");
    }
    assert(strings_view(out@) =~= before + close_at_end(state@));
    Ok(out)
}

/// The decompiler run over a sequence of instructions from state `s`: the
/// final state and all lines, or `None` when a step fails.
pub open spec fn steps(s: DecompilerView, ins: Seq<InstructionView>) -> Option<(DecompilerView, Seq<Seq<char>>)>
    decreases ins.len(),
{
    if ins.len() == 0 {
        Some((s, Seq::empty()))
    } else {
        match steps(s, ins.drop_last()) {
            Some((s1, lines1)) => match step(s1, ins.last()) {
                Some((s2, lines2)) => Some((s2, lines1 + lines2)),
                None => None,
            },
            None => None,
        }
    }
}

/// An `ElseGoto` met with no block pending opens a guarded block: it emits
/// `if [<conditions>]` at the current depth, remembers its target label,
/// and what follows stands one level deeper.
pub proof fn lemma_else_goto_opens_block(s: DecompilerView, ins: InstructionView)
    requires
        !s.pending,
        ins.opcode == 19,
        ins.arg0 is Some,
    ensures
        step(s, ins) == Some(
            (
                DecompilerView {
                    depth: s.depth + 1,
                    pending: false,
                    labels: s.labels.push(ins.arg0->Some_0),
                },
                seq![line(s.depth, "if "@ + guard(ins.conditions))],
            ),
        ),
{
    assert(Seq::<char>::empty() + "if "@ =~= "if "@);
}

/// Defining the label that the innermost open block jumps to emits nothing
/// and leaves that block pending its close.
pub proof fn lemma_label_ends_branch(s: DecompilerView, ins: InstructionView)
    requires
        !s.pending,
        ins.opcode == 9,
        s.labels.len() > 0,
        ins.arg0 == Some(s.labels.last()),
    ensures
        step(s, ins) == Some(
            (
                DecompilerView { depth: s.depth, pending: true, labels: s.labels.drop_last() },
                Seq::<Seq<char>>::empty(),
            ),
        ),
{
    assert(Seq::<Seq<char>>::empty() + Seq::<Seq<char>>::empty() =~= Seq::<Seq<char>>::empty());
}

/// A pending block is closed before the next instruction, one level out:
/// by an `endif` line, or, when that instruction is another `ElseGoto`, by
/// its `if` line reading `else if`.
pub proof fn lemma_pending_block_closes(s: DecompilerView, ins: InstructionView)
    requires
        s.pending,
        s.depth > 0,
    ensures
        ({
            let outer = DecompilerView { depth: (s.depth - 1) as nat, pending: false, labels: s.labels };
            &&& ins.opcode != 19 ==> step(s, ins) == match render(outer, ins, Seq::empty()) {
                Some((s2, lines)) => Some((s2, seq![line(outer.depth, "endif"@)] + lines)),
                None => None,
            }
            &&& ins.opcode == 19 && ins.arg0 is Some ==> step(s, ins) == Some(
                (
                    DecompilerView {
                        depth: s.depth,
                        pending: false,
                        labels: s.labels.push(ins.arg0->Some_0),
                    },
                    seq![line(outer.depth, "else "@ + "if "@ + guard(ins.conditions))],
                ),
            )
        }),
{
    if ins.opcode == 19 && ins.arg0 is Some {
        assert(Seq::<Seq<char>>::empty() + seq![line((s.depth - 1) as nat, "else "@ + "if "@ + guard(ins.conditions))]
            =~= seq![line((s.depth - 1) as nat, "else "@ + "if "@ + guard(ins.conditions))]);
    }
}

/// An instruction with both operands that says a line.
pub open spec fn say(talker: Seq<char>, text: Seq<char>) -> InstructionView {
    InstructionView { opcode: 1, conditions: Seq::empty(), arg0: Some(talker), arg1: Some(text) }
}

/// A guarded block rebuilt from its jumps: `ElseGoto` to label `l`, a body
/// line, the definition of `l`, and a line after the block give the `if`
/// line at the outer depth, the body one level deeper, `endif` back at the
/// outer depth, and the next line there too.
pub proof fn lemma_if_block_lines(
    s: DecompilerView,
    conds: Seq<Seq<char>>,
    l: Seq<char>,
    body: InstructionView,
    after: InstructionView,
)
    requires
        !s.pending,
        body.opcode == 1 && body.arg0 is Some && body.arg1 is Some,
        after.opcode == 1 && after.arg0 is Some && after.arg1 is Some,
    ensures
        ({
            let open = InstructionView { opcode: 19, conditions: conds, arg0: Some(l), arg1: None };
            let define = InstructionView { opcode: 9, conditions: Seq::empty(), arg0: Some(l), arg1: None };
            let d = s.depth;
            steps(s, seq![open, body, define, after]) == Some(
                (
                    s,
                    seq![
                        line(d, "if "@ + guard(conds)),
                        line(d + 1, body.arg0->Some_0 + ": SAY("@ + body.arg1->Some_0 + ")"@),
                        line(d, "endif"@),
                        line(d, after.arg0->Some_0 + ": SAY("@ + after.arg1->Some_0 + ")"@),
                    ],
                ),
            )
        }),
{
    let open = InstructionView { opcode: 19, conditions: conds, arg0: Some(l), arg1: None };
    let define = InstructionView { opcode: 9, conditions: Seq::empty(), arg0: Some(l), arg1: None };
    let d = s.depth;
    let all = seq![open, body, define, after];
    lemma_else_goto_opens_block(s, open);
    let s1 = DecompilerView { depth: d + 1, pending: false, labels: s.labels.push(l) };
    let l1 = line(d, "if "@ + guard(conds));
    let l2 = line(d + 1, body.arg0->Some_0 + ": SAY("@ + body.arg1->Some_0 + ")"@);
    let l4 = line(d, after.arg0->Some_0 + ": SAY("@ + after.arg1->Some_0 + ")"@);
    assert(Seq::<Seq<char>>::empty() + seq![l2] =~= seq![l2]);
    assert(step(s1, body) == Some((s1, seq![l2])));
    lemma_label_ends_branch(s1, define);
    assert(s1.labels.drop_last() =~= s.labels);
    let s3 = DecompilerView { depth: d + 1, pending: true, labels: s.labels };
    lemma_pending_block_closes(s3, after);
    assert(step(s3, after) == Some((s, seq![line(d, "endif"@)] + seq![l4])));
    let head0 = Seq::<InstructionView>::empty();
    let head1 = seq![open];
    let head2 = seq![open, body];
    let head3 = seq![open, body, define];
    assert(head1.drop_last() =~= head0);
    assert(head2.drop_last() =~= head1);
    assert(head3.drop_last() =~= head2);
    assert(all.drop_last() =~= head3);
    assert(steps(s, head0) == Some((s, Seq::<Seq<char>>::empty())));
    assert(Seq::<Seq<char>>::empty() + seq![l1] =~= seq![l1]);
    assert(steps(s, head1) == Some((s1, seq![l1])));
    assert(seq![l1] + seq![l2] =~= seq![l1, l2]);
    assert(steps(s, head2) == Some((s1, seq![l1, l2])));
    assert(seq![l1, l2] + Seq::<Seq<char>>::empty() =~= seq![l1, l2]);
    assert(steps(s, head3) == Some((s3, seq![l1, l2])));
    assert(seq![l1, l2] + (seq![line(d, "endif"@)] + seq![l4]) =~= seq![l1, l2, line(d, "endif"@), l4]);
}

/// An opcode the decompiler does not know never stops it: with no block
/// pending it emits exactly one diagnostic line, which names the raw
/// opcode, and leaves the state as it was.
pub proof fn lemma_unknown_opcode_line(s: DecompilerView, ins: InstructionView)
    requires
        !s.pending,
        opcode_of(ins.opcode) == YackOpcode::Unknown,
    ensures
        step(s, ins) == Some((s, seq![line(s.depth, unknown_text(ins))])),
        unknown_text(ins).take(18 + decimal(ins.opcode as nat).len() as int) == "?? Unknown opcode "@ + decimal(
            ins.opcode as nat,
        ),
{
    reveal_strlit("?? Unknown opcode ");
    let head = "?? Unknown opcode "@ + decimal(ins.opcode as nat);
    assert(head.len() == 18 + decimal(ins.opcode as nat).len());
    assert(Seq::<Seq<char>>::empty() + seq![line(s.depth, unknown_text(ins))] =~= seq![line(s.depth, unknown_text(ins))]);
    assert(unknown_text(ins).take(head.len() as int) =~= head);
}

/// In a whole script, a record with an opcode the decompiler does not know,
/// met with no block pending, adds exactly its one diagnostic line and
/// decoding goes on with the next record from the same state.
pub proof fn lemma_unknown_record_in_script(
    data: Seq<u8>,
    table: Seq<Seq<char>>,
    p: int,
    s: DecompilerView,
    ins: InstructionView,
)
    requires
        0 <= p < data.len(),
        data[p] != 0,
        instruction_at(data, table, p) == Some(ins),
        opcode_of(ins.opcode) == YackOpcode::Unknown,
        !s.pending,
    ensures
        run(data, table, p, s) == prepend(
            seq![line(s.depth, unknown_text(ins))],
            run(data, table, p + record_len(data, p), s),
        ),
{
    lemma_unknown_opcode_line(s, ins);
}

} // verus!
