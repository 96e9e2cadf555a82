use vstd::prelude::*;
use vstd::string::StrSliceExecFns;
use vstd::string::StringExecFns;
use std::str::FromStr;
use crate::compiler::BASE_OFFSET;
use crate::compiler::CompileError;
use crate::compiler::border_tile;
use crate::compiler::code_fits;
use crate::compiler::compile_code;
use crate::compiler::compiled_set;
use crate::compiler::initial_row;
use crate::tiling::pip_of;
use crate::tessera::built;
use crate::constraint::self_consistent;

verus! {

/// What a write puts into the cell under the head.
#[derive(Debug, Clone, Copy, PartialEq, Eq, Structural)]
pub enum WriteOp {
    SetBit,
    Unset,
}

/// Where a seek moves the head.
#[derive(Debug, Clone, Copy, PartialEq, Eq, Structural)]
pub enum SeekOp {
    Left,
    Right,
}

/// Whether a bit goes from the input to the cell under the head, or from
/// the cell to the output.
#[derive(Debug, Clone, Copy, PartialEq, Eq, Structural)]
pub enum IoOp {
    In,
    Out,
}

/// The name of a label.
pub type LabelId = String;

/// The place of an instruction in a program, the first being 0.
pub type InsnOffset = usize;

/// Where a branch leads.
#[derive(Debug, Clone)]
pub enum Target {
    /// To the instruction after the branch.
    NextAddress,
    /// To the instruction after the label of this name.
    Name(LabelId),
}

/// A target, its name as a sequence of characters.
pub enum TargetView {
    NextAddress,
    Name(Seq<char>),
}

impl View for Target {
    type V = TargetView;

    open spec fn view(&self) -> TargetView {
        match self {
            Target::NextAddress => TargetView::NextAddress,
            Target::Name(label) => TargetView::Name(label@),
        }
    }
}

impl Target {
    /// The target in writing: the name, or a word for the next instruction.
    pub open spec fn text(&self) -> Seq<char> {
        match self {
            Target::NextAddress => "<fallthrough>"@,
            Target::Name(label) => label@,
        }
    }

    /// The target in writing.
    pub fn to_string(&self) -> (text: String)
        ensures
            text@ == self.text(),
    {
        match self {
            Target::NextAddress => "<fallthrough>".to_owned(),
            Target::Name(label) => label.clone(),
        }
    }
}

/// A statement of the source: an instruction or a label.
#[derive(Debug, Clone)]
pub enum Stmt {
    Write(WriteOp),
    Seek(SeekOp),
    Io(IoOp),
    Label(LabelId),
    Jmp(Target, Target),
    Debug,
}

/// A statement, its names as sequences of characters.
pub enum StmtView {
    Write(WriteOp),
    Seek(SeekOp),
    Io(IoOp),
    Label(Seq<char>),
    Jmp(TargetView, TargetView),
    Debug,
}

impl View for Stmt {
    type V = StmtView;

    open spec fn view(&self) -> StmtView {
        match self {
            Stmt::Write(op) => StmtView::Write(*op),
            Stmt::Seek(op) => StmtView::Seek(*op),
            Stmt::Io(op) => StmtView::Io(*op),
            Stmt::Label(label) => StmtView::Label(label@),
            Stmt::Jmp(if_one, if_zero) => StmtView::Jmp(if_one@, if_zero@),
            Stmt::Debug => StmtView::Debug,
        }
    }
}

/// The statements of a sequence, each by its view.
pub open spec fn views_of(statements: Seq<Stmt>) -> Seq<StmtView> {
    statements.map_values(|s: Stmt| s@)
}

/// An instruction of a program, its targets resolved.
#[derive(Debug, Clone, Copy, PartialEq, Eq, Structural)]
pub enum Insn {
    Write(WriteOp),
    Seek(SeekOp),
    Io(IoOp),
    /// Branches on the cell under the head: to the first offset if it
    /// holds one, to the second if it holds zero.
    Jmp(InsnOffset, InsnOffset),
    Debug,
}

/// The instructions of a program.
pub type Code = Vec<Insn>;

/// A class of characters of the source.
#[derive(Debug, Clone, Copy, PartialEq, Eq, Structural)]
pub enum CharClass {
    /// A letter, a digit, an apostrophe or an underscore.
    Label,
    /// A blank or a tab.
    Space,
    /// A blank, a tab, a carriage return or a line feed.
    Multispace,
    /// Any character but an asterisk and a slash.
    Remark,
}

/// Whether a character belongs to a class.
pub open spec fn in_class(class: CharClass, c: char) -> bool {
    match class {
        CharClass::Label => ('a' <= c <= 'z') || ('A' <= c <= 'Z') || ('0' <= c <= '9') || c
            == '\'' || c == '_',
        CharClass::Space => c == ' ' || c == '\t',
        CharClass::Multispace => c == ' ' || c == '\t' || c == '\r' || c == '\n',
        CharClass::Remark => c != '*' && c != '/',
    }
}

/// How many characters of a class stand in a row from `from` on.
pub open spec fn run_len(input: Seq<char>, from: int, class: CharClass) -> nat
    decreases input.len() - from,
{
    if 0 <= from < input.len() && in_class(class, input[from]) {
        1 + run_len(input, from + 1, class)
    } else {
        0
    }
}

/// The place after the white space that begins at `from`.
pub open spec fn after_space(input: Seq<char>, from: int) -> int {
    from + run_len(input, from, CharClass::Multispace)
}

/// A label definition at `at`: a name, blanks, a colon, white space.
pub open spec fn label_op(input: Seq<char>, at: int) -> Option<(StmtView, int)> {
    let n = run_len(input, at, CharClass::Label);
    let colon = at + n + run_len(input, at + n, CharClass::Space);
    if n > 0 && colon < input.len() && input[colon] == ':' {
        Some((StmtView::Label(input.subrange(at, at + n)), after_space(input, colon + 1)))
    } else {
        None
    }
}

/// A branch at `at`: the word `jmp`, white space, a name, and then
/// perhaps a comma between white space, a second name and white space.
pub open spec fn jmp_op(input: Seq<char>, at: int) -> Option<(StmtView, int)> {
    if 0 <= at && at + 3 <= input.len() && input[at] == 'j' && input[at + 1] == 'm' && input[at
        + 2] == 'p' {
        let name = after_space(input, at + 3);
        let n = run_len(input, name, CharClass::Label);
        if name > at + 3 && n > 0 {
            let end = name + n;
            let if_one = TargetView::Name(input.subrange(name, end));
            let comma = after_space(input, end);
            let second = after_space(input, comma + 1);
            let m = run_len(input, second, CharClass::Label);
            if comma < input.len() && input[comma] == ',' && m > 0 {
                Some(
                    (
                        StmtView::Jmp(if_one, TargetView::Name(input.subrange(second, second + m))),
                        after_space(input, second + m),
                    ),
                )
            } else {
                Some((StmtView::Jmp(if_one, TargetView::NextAddress), end))
            }
        } else {
            None
        }
    } else {
        None
    }
}

/// The instruction that a single character stands for.
pub open spec fn sign(c: char) -> Option<StmtView> {
    if c == '+' {
        Some(StmtView::Write(WriteOp::SetBit))
    } else if c == '-' {
        Some(StmtView::Write(WriteOp::Unset))
    } else if c == '<' {
        Some(StmtView::Seek(SeekOp::Left))
    } else if c == '>' {
        Some(StmtView::Seek(SeekOp::Right))
    } else if c == ',' {
        Some(StmtView::Io(IoOp::In))
    } else if c == '.' {
        Some(StmtView::Io(IoOp::Out))
    } else if c == '!' {
        Some(StmtView::Debug)
    } else {
        None
    }
}

/// An instruction of one character at `at`, and white space.
pub open spec fn sign_op(input: Seq<char>, at: int) -> Option<(StmtView, int)> {
    if 0 <= at < input.len() && sign(input[at]) is Some {
        Some((sign(input[at])->0, after_space(input, at + 1)))
    } else {
        None
    }
}

/// A statement at `at`: a label definition, else a branch, else an
/// instruction of one character.
pub open spec fn statement(input: Seq<char>, at: int) -> Option<(StmtView, int)> {
    if label_op(input, at) is Some {
        label_op(input, at)
    } else if jmp_op(input, at) is Some {
        jmp_op(input, at)
    } else {
        sign_op(input, at)
    }
}

/// A comment at `at`: a slash and an asterisk, one character or more that
/// is neither, an asterisk and a slash, and white space. Gives the place
/// after it.
pub open spec fn comment(input: Seq<char>, at: int) -> Option<int> {
    let n = run_len(input, at + 2, CharClass::Remark);
    let close = at + 2 + n;
    if 0 <= at && at + 2 <= input.len() && input[at] == '/' && input[at + 1] == '*' && n > 0
        && close + 2 <= input.len() && input[close] == '*' && input[close + 1] == '/' {
        Some(after_space(input, close + 2))
    } else {
        None
    }
}

/// A statement with what may stand before it: a comment, and white space.
pub open spec fn any_statement(input: Seq<char>, at: int) -> Option<(StmtView, int)> {
    let from = match comment(input, at) {
        Some(after) => after,
        None => at,
    };
    statement(input, after_space(input, from))
}

/// The statements that stand in a row from `at` on, and the place where
/// the first text begins that is no statement.
pub open spec fn statements(input: Seq<char>, at: int) -> (Seq<StmtView>, int)
    decreases input.len() - at,
{
    match any_statement(input, at) {
        Some((first, next)) => if at < next <= input.len() {
            let rest = statements(input, next);
            (seq![first] + rest.0, rest.1)
        } else {
            (Seq::empty(), at)
        },
        None => (Seq::empty(), at),
    }
}

/// Why a source is no program.
#[derive(Debug)]
pub enum WmachErr {
    /// The source does not follow the grammar.
    GeneralError { message: String },
    /// A label is defined twice.
    DuplicateLabel { label: String },
    /// The branch at `offset` names a label that is not defined.
    UnknownTarget { offset: InsnOffset, target: Target },
}

/// An error, its texts as sequences of characters.
pub enum WmachErrView {
    GeneralError { message: Seq<char> },
    DuplicateLabel { label: Seq<char> },
    UnknownTarget { offset: InsnOffset, target: TargetView },
}

impl View for WmachErr {
    type V = WmachErrView;

    open spec fn view(&self) -> WmachErrView {
        match self {
            WmachErr::GeneralError { message } => WmachErrView::GeneralError { message: message@ },
            WmachErr::DuplicateLabel { label } => WmachErrView::DuplicateLabel { label: label@ },
            WmachErr::UnknownTarget { offset, target } => WmachErrView::UnknownTarget {
                offset: *offset,
                target: target@,
            },
        }
    }
}

/// The statements of a source, or the error that names the text that is
/// left over after the last statement.
pub open spec fn parsed(input: Seq<char>) -> Result<Seq<StmtView>, WmachErrView> {
    let (found, end) = statements(input, 0);
    if end == input.len() {
        Ok(found)
    } else {
        Err(
            WmachErrView::GeneralError {
                message: "Left over data: "@ + input.subrange(end, input.len() as int),
            },
        )
    }
}

/// The characters of a text, one by one.
pub fn chars_of(text: &str) -> (chars: Vec<char>)
    ensures
        chars@ == text@,
{
    let mut chars: Vec<char> = Vec::new();
    for c in it: text.chars()
        invariant
            chars@ == it.seq().take(it.index() as int),
            it.seq() == text@,
    {
        chars.push(c);
    }
    chars
}

/// A source text together with its characters.
pub struct Source<'a> {
    text: &'a str,
    chars: Vec<char>,
}

impl<'a> View for Source<'a> {
    type V = Seq<char>;

    closed spec fn view(&self) -> Seq<char> {
        self.chars@
    }
}

impl<'a> Source<'a> {
    /// The characters are those of the text.
    pub closed spec fn wf(&self) -> bool {
        self.chars@ == self.text@
    }

    pub fn new(text: &'a str) -> (source: Self)
        ensures
            source.wf(),
            source@ == text@,
    {
        Source { text, chars: chars_of(text) }
    }

    /// How many characters the source holds.
    pub fn len(&self) -> (n: usize)
        ensures
            n == self@.len(),
    {
        self.chars.len()
    }

    /// The text between two places.
    fn slice(&self, from: usize, to: usize) -> (piece: String)
        requires
            self.wf(),
            from <= to <= self@.len(),
        ensures
            piece@ == self@.subrange(from as int, to as int),
    {
        self.text.substring_char(from, to).to_owned()
    }

    /// Whether the character at `at` is `c`.
    fn is_at(&self, at: usize, c: char) -> (yes: bool)
        ensures
            yes == (at < self@.len() && self@[at as int] == c),
    {
        at < self.chars.len() && self.chars[at] == c
    }

    /// Whether the characters at `at` and after it are `first` and `second`.
    fn pair_at(&self, at: usize, first: char, second: char) -> (yes: bool)
        ensures
            yes == (at + 2 <= self@.len() && self@[at as int] == first && self@[at + 1] == second),
    {
        let n = self.chars.len();
        n >= 2 && at <= n - 2 && self.chars[at] == first && self.chars[at + 1] == second
    }

    /// The place after the characters of a class that begin at `from`.
    fn skip_run(&self, from: usize, class: CharClass) -> (to: usize)
        requires
            from <= self@.len(),
        ensures
            to == from + run_len(self@, from as int, class),
            to <= self@.len(),
    {
        let mut to: usize = from;
        while to < self.chars.len() && is_in(class, self.chars[to])
            invariant
                from <= to <= self@.len(),
                run_len(self@, from as int, class) == (to - from) + run_len(
                    self@,
                    to as int,
                    class,
                ),
            decreases self@.len() - to,
        {
            to += 1;
        }
        to
    }

    /// The place after the white space that begins at `from`.
    fn skip_space(&self, from: usize) -> (to: usize)
        requires
            from <= self@.len(),
        ensures
            to == after_space(self@, from as int),
            to <= self@.len(),
    {
        self.skip_run(from, CharClass::Multispace)
    }

    /// A label definition at `at`.
    pub fn label_op(&self, at: usize) -> (res: Option<(Stmt, usize)>)
        requires
            self.wf(),
            at <= self@.len(),
        ensures
            match label_op(self@, at as int) {
                Some((stmt, next)) => res matches Some((found, to)) && found@ == stmt && to == next
                    && at < to <= self@.len(),
                None => res is None,
            },
    {
        let n = self.chars.len();
        let name_end = self.skip_run(at, CharClass::Label);
        let colon = self.skip_run(name_end, CharClass::Space);
        if name_end > at && self.is_at(colon, ':') {
            let label = self.slice(at, name_end);
            Some((Stmt::Label(label), self.skip_space(colon + 1)))
        } else {
            None
        }
    }

    /// A branch at `at`.
    pub fn jmp_op(&self, at: usize) -> (res: Option<(Stmt, usize)>)
        requires
            self.wf(),
            at <= self@.len(),
        ensures
            match jmp_op(self@, at as int) {
                Some((stmt, next)) => res matches Some((found, to)) && found@ == stmt && to == next
                    && at < to <= self@.len(),
                None => res is None,
            },
    {
        let n = self.chars.len();
        if !self.pair_at(at, 'j', 'm') {
            return None;
        }
        if !self.is_at(at + 2, 'p') {
            return None;
        }
        let name = self.skip_space(at + 3);
        let end = self.skip_run(name, CharClass::Label);
        if !(name > at + 3 && end > name) {
            return None;
        }
        let if_one = Target::Name(self.slice(name, end));
        let comma = self.skip_space(end);
        if self.is_at(comma, ',') {
            let second = self.skip_space(comma + 1);
            let second_end = self.skip_run(second, CharClass::Label);
            if second_end > second {
                let if_zero = Target::Name(self.slice(second, second_end));
                return Some((Stmt::Jmp(if_one, if_zero), self.skip_space(second_end)));
            }
        }
        Some((Stmt::Jmp(if_one, Target::NextAddress), end))
    }

    /// An instruction of one character at `at`.
    pub fn sign_op(&self, at: usize) -> (res: Option<(Stmt, usize)>)
        requires
            self.wf(),
            at <= self@.len(),
        ensures
            match sign_op(self@, at as int) {
                Some((stmt, next)) => res matches Some((found, to)) && found@ == stmt && to == next
                    && at < to <= self@.len(),
                None => res is None,
            },
    {
        if at >= self.chars.len() {
            return None;
        }
        let n = self.chars.len();
        let c = self.chars[at];
        let stmt = if c == '+' {
            Stmt::Write(WriteOp::SetBit)
        } else if c == '-' {
            Stmt::Write(WriteOp::Unset)
        } else if c == '<' {
            Stmt::Seek(SeekOp::Left)
        } else if c == '>' {
            Stmt::Seek(SeekOp::Right)
        } else if c == ',' {
            Stmt::Io(IoOp::In)
        } else if c == '.' {
            Stmt::Io(IoOp::Out)
        } else if c == '!' {
            Stmt::Debug
        } else {
            return None;
        };
        Some((stmt, self.skip_space(at + 1)))
    }

    /// A statement at `at`.
    pub fn statement(&self, at: usize) -> (res: Option<(Stmt, usize)>)
        requires
            self.wf(),
            at <= self@.len(),
        ensures
            match statement(self@, at as int) {
                Some((stmt, next)) => res matches Some((found, to)) && found@ == stmt && to == next
                    && at < to <= self@.len(),
                None => res is None,
            },
    {
        if let Some(found) = self.label_op(at) {
            return Some(found);
        }
        if let Some(found) = self.jmp_op(at) {
            return Some(found);
        }
        self.sign_op(at)
    }

    /// The place after a comment at `at`.
    pub fn comment(&self, at: usize) -> (res: Option<usize>)
        requires
            self.wf(),
            at <= self@.len(),
        ensures
            res == match comment(self@, at as int) {
                Some(next) => Some(next as usize),
                None => None,
            },
            res matches Some(to) ==> at < to <= self@.len() && comment(self@, at as int) == Some(
                to as int,
            ),
    {
        let n = self.chars.len();
        if !self.pair_at(at, '/', '*') {
            return None;
        }
        let close = self.skip_run(at + 2, CharClass::Remark);
        if close > at + 2 && self.pair_at(close, '*', '/') {
            Some(self.skip_space(close + 2))
        } else {
            None
        }
    }

    /// A statement with what may stand before it.
    pub fn any_statement(&self, at: usize) -> (res: Option<(Stmt, usize)>)
        requires
            self.wf(),
            at <= self@.len(),
        ensures
            match any_statement(self@, at as int) {
                Some((stmt, next)) => res matches Some((found, to)) && found@ == stmt && to == next
                    && at < to <= self@.len(),
                None => res is None,
            },
    {
        let from = match self.comment(at) {
            Some(after) => after,
            None => at,
        };
        let start = self.skip_space(from);
        self.statement(start)
    }
}

/// Whether a character belongs to a class.
fn is_in(class: CharClass, c: char) -> (yes: bool)
    ensures
        yes == in_class(class, c),
{
    match class {
        CharClass::Label => (c >= 'a' && c <= 'z') || (c >= 'A' && c <= 'Z') || (c >= '0' && c
            <= '9') || c == '\'' || c == '_',
        CharClass::Space => c == ' ' || c == '\t',
        CharClass::Multispace => c == ' ' || c == '\t' || c == '\r' || c == '\n',
        CharClass::Remark => c != '*' && c != '/',
    }
}

/// How many statements of a sequence are instructions.
pub open spec fn insn_count(statements: Seq<StmtView>) -> nat
    decreases statements.len(),
{
    if statements.len() == 0 {
        0
    } else {
        insn_count(statements.drop_last()) + if statements.last() is Label {
            0nat
        } else {
            1nat
        }
    }
}

/// The offset that each label of a sequence of statements stands for: that
/// of the instruction that follows its definition.
pub open spec fn jump_table(statements: Seq<StmtView>) -> Map<Seq<char>, nat>
    decreases statements.len(),
{
    if statements.len() == 0 {
        Map::empty()
    } else {
        let table = jump_table(statements.drop_last());
        match statements.last() {
            StmtView::Label(label) => table.insert(label, insn_count(statements.drop_last())),
            _ => table,
        }
    }
}

/// The first label of a sequence of statements that an earlier statement
/// has defined already.
pub open spec fn duplicate_label(statements: Seq<StmtView>) -> Option<Seq<char>>
    decreases statements.len(),
{
    if statements.len() == 0 {
        None
    } else {
        match duplicate_label(statements.drop_last()) {
            Some(label) => Some(label),
            None => match statements.last() {
                StmtView::Label(label) => if jump_table(statements.drop_last()).dom().contains(
                    label,
                ) {
                    Some(label)
                } else {
                    None
                },
                _ => None,
            },
        }
    }
}

/// The offset to which a target of the branch at `offset` leads.
pub open spec fn address(table: Map<Seq<char>, nat>, target: TargetView, offset: nat) -> Option<
    nat,
> {
    match target {
        TargetView::NextAddress => Some(offset + 1),
        TargetView::Name(label) => if table.dom().contains(label) {
            Some(table[label])
        } else {
            None
        },
    }
}

/// The instructions of a sequence of statements, the targets of each
/// branch resolved by `table`; or the error that names the first target
/// that `table` does not define.
pub open spec fn assembled(statements: Seq<StmtView>, table: Map<Seq<char>, nat>) -> Result<
    Seq<Insn>,
    WmachErrView,
>
    decreases statements.len(),
{
    if statements.len() == 0 {
        Ok(Seq::empty())
    } else {
        match assembled(statements.drop_last(), table) {
            Err(error) => Err(error),
            Ok(code) => match statements.last() {
                StmtView::Label(_) => Ok(code),
                StmtView::Write(op) => Ok(code.push(Insn::Write(op))),
                StmtView::Seek(op) => Ok(code.push(Insn::Seek(op))),
                StmtView::Io(op) => Ok(code.push(Insn::Io(op))),
                StmtView::Debug => Ok(code.push(Insn::Debug)),
                StmtView::Jmp(if_one, if_zero) => match address(table, if_one, code.len()) {
                    None => Err(
                        WmachErrView::UnknownTarget { offset: code.len() as usize, target: if_one },
                    ),
                    Some(one) => match address(table, if_zero, code.len()) {
                        None => Err(
                            WmachErrView::UnknownTarget {
                                offset: code.len() as usize,
                                target: if_zero,
                            },
                        ),
                        Some(zero) => Ok(code.push(Insn::Jmp(one as usize, zero as usize))),
                    },
                },
            },
        }
    }
}

/// The instructions and the labels of a source, or the first error: a
/// text that no statement matches, then a label defined twice, then a
/// target that is not defined.
pub open spec fn program_of(input: Seq<char>) -> Result<
    (Seq<Insn>, Map<Seq<char>, nat>),
    WmachErrView,
> {
    match parsed(input) {
        Err(error) => Err(error),
        Ok(found) => match duplicate_label(found) {
            Some(label) => Err(WmachErrView::DuplicateLabel { label }),
            None => match assembled(found, jump_table(found)) {
                Err(error) => Err(error),
                Ok(code) => Ok((code, jump_table(found))),
            },
        },
    }
}

/// The offsets that a list of labels gives, a later entry of a name
/// taking the place of an earlier one.
pub open spec fn table_of(labels: Seq<(String, usize)>) -> Map<Seq<char>, nat>
    decreases labels.len(),
{
    if labels.len() == 0 {
        Map::empty()
    } else {
        table_of(labels.drop_last()).insert(labels.last().0@, labels.last().1 as nat)
    }
}

/// A list of labels with their offsets.
pub type LabelMap = Vec<(LabelId, InsnOffset)>;

/// The offset of a label in a list of labels.
fn lookup(labels: &LabelMap, name: &String) -> (found: Option<usize>)
    ensures
        match found {
            Some(offset) => table_of(labels@).dom().contains(name@) && table_of(labels@)[name@]
                == offset,
            None => !table_of(labels@).dom().contains(name@),
        },
{
    let mut i: usize = labels.len();
    assert(labels@.take(i as int) == labels@);
    while i > 0
        invariant
            i <= labels@.len(),
            table_of(labels@).dom().contains(name@) <==> table_of(labels@.take(i as int)).dom().contains(
                name@,
            ),
            table_of(labels@).dom().contains(name@) ==> table_of(labels@)[name@] == table_of(
                labels@.take(i as int),
            )[name@],
        decreases i,
    {
        i -= 1;
        proof {
            assert(labels@.take(i + 1).drop_last() == labels@.take(i as int));
        }
        if labels[i].0 == *name {
            return Some(labels[i].1);
        }
    }
    None
}

/// A copy of a target.
fn copy_target(target: &Target) -> (copy: Target)
    ensures
        copy@ == target@,
{
    match target {
        Target::NextAddress => Target::NextAddress,
        Target::Name(label) => Target::Name(label.clone()),
    }
}

/// A program: its instructions, and the offsets of its labels.
#[derive(Debug)]
pub struct Program {
    pub instructions: Code,
    labels: LabelMap,
}

impl Program {
    /// The instructions of the program.
    pub closed spec fn code(&self) -> Seq<Insn> {
        self.instructions@
    }

    /// The offset that each label of the program stands for.
    pub closed spec fn label_map(&self) -> Map<Seq<char>, nat> {
        table_of(self.labels@)
    }

    /// The statements of a source.
    ///
    /// Fails if text is left over after the last statement; the error
    /// names that text.
    pub fn parse_statements(unparsed: &str) -> (res: Result<Vec<Stmt>, WmachErr>)
        ensures
            match parsed(unparsed@) {
                Ok(found) => res matches Ok(statements) && views_of(statements@) == found,
                Err(error) => res matches Err(e) && e@ == error,
            },
    {
        let source = Source::new(unparsed);
        let n = source.len();
        let mut found: Vec<Stmt> = Vec::new();
        let mut at: usize = 0;
        loop
            invariant
                source.wf(),
                source@ == unparsed@,
                n == source@.len(),
                at <= n,
                statements(source@, 0) == (
                    views_of(found@) + statements(source@, at as int).0,
                    statements(source@, at as int).1,
                ),
            ensures
                statements(source@, 0) == (views_of(found@), at as int),
            decreases n - at,
        {
            match source.any_statement(at) {
                Some((stmt, next)) => {
                    proof {
                        let rest = statements(source@, next as int);
                        assert(views_of(found@.push(stmt)) =~= views_of(found@).push(stmt@));
                        assert(views_of(found@) + (seq![stmt@] + rest.0) =~= views_of(
                            found@,
                        ).push(stmt@) + rest.0);
                    }
                    found.push(stmt);
                    at = next;
                },
                None => {
                    proof {
                        assert(views_of(found@) + Seq::<StmtView>::empty() =~= views_of(found@));
                    }
                    break ;
                },
            }
        }
        if at < n {
            let mut message = "Left over data: ".to_owned();
            message.append(source.text.substring_char(at, n));
            return Err(WmachErr::GeneralError { message });
        }
        Ok(found)
    }

    /// The program of a source: its statements are parsed, each label is
    /// given the offset of the instruction that follows it, and the targets
    /// of each branch are resolved.
    ///
    /// Fails if the source does not follow the grammar, if a label is
    /// defined twice, or if a branch names a label that is not defined.
    pub fn from_str(unparsed: &str) -> (res: Result<Program, WmachErr>)
        ensures
            match program_of(unparsed@) {
                Ok((code, table)) => res matches Ok(program) && program.code() == code
                    && program.label_map() == table,
                Err(error) => res matches Err(e) && e@ == error,
            },
    {
        let statements = match Program::parse_statements(unparsed) {
            Ok(statements) => statements,
            Err(error) => {
                return Err(error);
            },
        };
        let ghost found = views_of(statements@);
        let n = statements.len();
        let mut jmp_table: LabelMap = Vec::new();
        let mut offset: InsnOffset = 0;
        let mut i: usize = 0;
        while i < n
            invariant
                n == statements@.len(),
                found == views_of(statements@),
                parsed(unparsed@) == Ok::<Seq<StmtView>, WmachErrView>(found),
                i <= n,
                offset <= i,
                offset == insn_count(found.take(i as int)),
                table_of(jmp_table@) == jump_table(found.take(i as int)),
                duplicate_label(found.take(i as int)) is None,
            decreases n - i,
        {
            proof {
                assert(found.take(i + 1).drop_last() == found.take(i as int));
                assert(found.take(i + 1).last() == statements@[i as int]@);
            }
            if let Stmt::Label(label_id) = &statements[i] {
                if lookup(&jmp_table, label_id).is_some() {
                    proof {
                        lemma_duplicate_stays(found, i + 1);
                    }
                    return Err(WmachErr::DuplicateLabel { label: label_id.clone() });
                }
                let ghost before = jmp_table@;
                jmp_table.push((label_id.clone(), offset));
                proof {
                    assert(jmp_table@.drop_last() == before);
                }
            } else {
                offset += 1;
            }
            i += 1;
        }
        proof {
            assert(found.take(n as int) == found);
        }
        let ghost table = jump_table(found);
        let mut insns: Vec<Insn> = Vec::new();
        i = 0;
        while i < n
            invariant
                n == statements@.len(),
                found == views_of(statements@),
                parsed(unparsed@) == Ok::<Seq<StmtView>, WmachErrView>(found),
                duplicate_label(found) is None,
                table == jump_table(found),
                table_of(jmp_table@) == table,
                i <= n,
                insns@.len() <= i,
                assembled(found.take(i as int), table) == Ok::<Seq<Insn>, WmachErrView>(insns@),
            decreases n - i,
        {
            proof {
                assert(found.take(i + 1).drop_last() == found.take(i as int));
                assert(found.take(i + 1).last() == statements@[i as int]@);
            }
            let offset = insns.len();
            match &statements[i] {
                Stmt::Write(value) => {
                    insns.push(Insn::Write(*value));
                },
                Stmt::Seek(direction) => {
                    insns.push(Insn::Seek(*direction));
                },
                Stmt::Io(rw) => {
                    insns.push(Insn::Io(*rw));
                },
                Stmt::Jmp(branch_t, branch_f) => {
                    let t = match branch_t {
                        Target::NextAddress => Some(offset + 1),
                        Target::Name(label_id) => lookup(&jmp_table, label_id),
                    };
                    let t = match t {
                        Some(t) => t,
                        None => {
                            proof {
                                lemma_assembled_error_stays(found, table, i + 1);
                            }
                            return Err(
                                WmachErr::UnknownTarget {
                                    offset: offset,
                                    target: copy_target(branch_t),
                                },
                            );
                        },
                    };
                    let f = match branch_f {
                        Target::NextAddress => Some(offset + 1),
                        Target::Name(label_id) => lookup(&jmp_table, label_id),
                    };
                    let f = match f {
                        Some(f) => f,
                        None => {
                            proof {
                                lemma_assembled_error_stays(found, table, i + 1);
                            }
                            return Err(
                                WmachErr::UnknownTarget {
                                    offset: offset,
                                    target: copy_target(branch_f),
                                },
                            );
                        },
                    };
                    insns.push(Insn::Jmp(t, f));
                },
                Stmt::Debug => {
                    insns.push(Insn::Debug);
                },
                Stmt::Label(_) => {},
            }
            i += 1;
        }
        proof {
            assert(found.take(n as int) == found);
        }
        Ok(Program { instructions: insns, labels: jmp_table })
    }
}

impl Program {
    /// The instructions of the program.
    pub fn instructions(&self) -> (code: &Code)
        ensures
            code@ == self.code(),
    {
        &self.instructions
    }

    /// The tile machine that runs the program.
    ///
    /// Fails if the pips cannot hold the program.
    pub fn compile(&self) -> (res: Result<crate::tessera::Program, CompileError>)
        ensures
            res is Ok <==> code_fits(self.code()),
            res matches Ok(machine) ==> {
                &&& machine.wf()
                &&& built(compiled_set(self.code()), border_tile(), initial_row(), machine@)
                &&& machine@.pile@[machine@.border as int] == border_tile()
                &&& machine@.tiles() == initial_row()
                &&& machine@.tiles()[1].south == pip_of(BASE_OFFSET, 0)
                &&& self_consistent(machine@.tiles(), border_tile())
            },
    {
        compile_code(&self.instructions)
    }
}

impl FromStr for Program {
    type Err = WmachErr;

    fn from_str(unparsed: &str) -> (res: Result<Program, WmachErr>)
        ensures
            match program_of(unparsed@) {
                Ok((code, table)) => res matches Ok(program) && program.code() == code
                    && program.label_map() == table,
                Err(error) => res matches Err(e) && e@ == error,
            },
    {
        Program::from_str(unparsed)
    }
}

/// A label that is found defined twice in a part of the statements is
/// found in the whole.
proof fn lemma_duplicate_stays(found: Seq<StmtView>, i: int)
    requires
        0 <= i <= found.len(),
        duplicate_label(found.take(i)) is Some,
    ensures
        duplicate_label(found) == duplicate_label(found.take(i)),
    decreases found.len() - i,
{
    if i < found.len() {
        assert(found.take(i + 1).drop_last() == found.take(i));
        lemma_duplicate_stays(found, i + 1);
    } else {
        assert(found.take(i) == found);
    }
}

/// An error in a part of the statements is the error of the whole.
proof fn lemma_assembled_error_stays(found: Seq<StmtView>, table: Map<Seq<char>, nat>, i: int)
    requires
        0 <= i <= found.len(),
        assembled(found.take(i), table) is Err,
    ensures
        assembled(found, table) == assembled(found.take(i), table),
    decreases found.len() - i,
{
    if i < found.len() {
        assert(found.take(i + 1).drop_last() == found.take(i));
        lemma_assembled_error_stays(found, table, i + 1);
    } else {
        assert(found.take(i) == found);
    }
}

} // verus!
