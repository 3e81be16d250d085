//! The layout pass: binds every label to an address and records what fills
//! each memory cell.
use std::collections::HashMap;
use vstd::prelude::*;

use crate::argument::{
    chars_of, const_value, parse_const_expression, parse_string_literal, string_value,
};
use crate::constants::PROGRAM_START;
use crate::program::{names_view, Line, LineContent};

verus! {

broadcast use vstd::std_specs::hash::group_hash_axioms;

/// What fills one memory cell.
#[derive(Clone, Copy, PartialEq, Eq, Debug, Structural)]
pub enum Placement {
    /// A cell reserved by `space`, left uninitialised.
    Reserved,
    /// One character of a `string` directive.
    Char(char),
    /// An instruction or a `word` directive, by its index in the program; it is
    /// encoded by a later pass.
    Line(usize),
}

/// A label and the address it is bound to.
pub struct Label {
    pub name: String,
    pub address: u64,
}

/// The result of the pass: labels in the order they were defined, and the
/// placement of each occupied cell.
pub struct Layout {
    pub labels: Vec<Label>,
    pub memory: HashMap<u64, Placement>,
}

/// Why the pass failed.
pub enum MemoryLayoutError {
    /// The label was defined twice.
    DuplicateLabel { label: String },
    /// The directive has a name that is not `word`, `space`, `addr` or `string`.
    UnsupportedDirective { directive: String },
    /// The argument of a `space`, `addr` or `string` directive could not be read.
    ArgumentParseError { argument: String },
    /// The current address would pass the largest 64-bit address.
    AddressOverflow,
}

/// The recognised directives, and the rest.
#[derive(Clone, Copy, PartialEq, Eq, Debug, Structural)]
pub enum DirectiveKind {
    Word,
    Space,
    Addr,
    Str,
    Unsupported,
}

/// A failure of the pass, over the characters of the names involved.
pub enum LayoutFailure {
    DuplicateLabel(Seq<char>),
    UnsupportedDirective(Seq<char>),
    ArgumentParseError(Seq<char>),
    AddressOverflow,
}

/// The state of the pass between two lines: the labels bound so far, the
/// cells placed so far, and the current address.
pub struct LayoutModel {
    pub labels: Seq<(Seq<char>, u64)>,
    pub memory: Map<u64, Placement>,
    pub cursor: u64,
}

impl MemoryLayoutError {
    pub open spec fn view(&self) -> LayoutFailure {
        match self {
            MemoryLayoutError::DuplicateLabel { label } => LayoutFailure::DuplicateLabel(label@),
            MemoryLayoutError::UnsupportedDirective { directive } => {
                LayoutFailure::UnsupportedDirective(directive@)
            },
            MemoryLayoutError::ArgumentParseError { argument } => {
                LayoutFailure::ArgumentParseError(argument@)
            },
            MemoryLayoutError::AddressOverflow => LayoutFailure::AddressOverflow,
        }
    }
}

/// The labels as pairs of name and address.
pub open spec fn labels_view(labels: Seq<Label>) -> Seq<(Seq<char>, u64)> {
    labels.map_values(|l: Label| (l.name@, l.address))
}

impl Layout {
    /// Whether this layout holds exactly the labels and cells of `m`.
    pub open spec fn holds(&self, m: LayoutModel) -> bool {
        &&& labels_view(self.labels@) == m.labels
        &&& self.memory@ == m.memory
    }
}

/// Which directive the name `name` stands for.
pub open spec fn directive_kind(name: Seq<char>) -> DirectiveKind {
    if name == seq!['w', 'o', 'r', 'd'] {
        DirectiveKind::Word
    } else if name == seq!['s', 'p', 'a', 'c', 'e'] {
        DirectiveKind::Space
    } else if name == seq!['a', 'd', 'd', 'r'] {
        DirectiveKind::Addr
    } else if name == seq!['s', 't', 'r', 'i', 'n', 'g'] {
        DirectiveKind::Str
    } else {
        DirectiveKind::Unsupported
    }
}

/// Whether a label named `name` is among `labels`.
pub open spec fn has_label(labels: Seq<(Seq<char>, u64)>, name: Seq<char>) -> bool {
    exists|i: int| 0 <= i < labels.len() && (#[trigger] labels[i]).0 == name
}

/// The address bound to `name`, if any.
pub open spec fn label_address(labels: Seq<(Seq<char>, u64)>, name: Seq<char>) -> Option<u64> {
    if has_label(labels, name) {
        let i = choose|i: int| 0 <= i < labels.len() && (#[trigger] labels[i]).0 == name;
        Some(labels[i].1)
    } else {
        None
    }
}

/// The state before the first line.
pub open spec fn initial_model() -> LayoutModel {
    LayoutModel { labels: Seq::empty(), memory: Map::empty(), cursor: PROGRAM_START }
}

/// The cells `cells`, placed one after the other from `start`.
pub open spec fn cells_from(start: u64, cells: Seq<Placement>) -> Map<u64, Placement> {
    Map::new(|a: u64| start <= a && a - start < cells.len(), |a: u64| cells[a - start])
}

/// `n` reserved cells.
pub open spec fn reserved_cells(n: nat) -> Seq<Placement> {
    Seq::new(n, |i: int| Placement::Reserved)
}

/// The cell that holds the character `c`.
pub open spec fn char_cell(c: char) -> Placement {
    Placement::Char(c)
}

/// One cell for each character of `cs`.
pub open spec fn text_cells(cs: Seq<char>) -> Seq<Placement> {
    Seq::new(cs.len(), |i: int| char_cell(cs[i]))
}

/// Places `cells` from the current address and moves past them.
pub open spec fn place_cells(m: LayoutModel, cells: Seq<Placement>) -> Result<LayoutModel, LayoutFailure> {
    if m.cursor + cells.len() > u64::MAX {
        Err(LayoutFailure::AddressOverflow)
    } else {
        Ok(
            LayoutModel {
                labels: m.labels,
                memory: m.memory.union_prefer_right(cells_from(m.cursor, cells)),
                cursor: (m.cursor + cells.len()) as u64,
            },
        )
    }
}

/// Binds each of `names`, in order, to the current address.
pub open spec fn bind_labels(m: LayoutModel, names: Seq<Seq<char>>) -> Result<LayoutModel, LayoutFailure>
    decreases names.len(),
{
    if names.len() == 0 {
        Ok(m)
    } else {
        match bind_labels(m, names.drop_last()) {
            Err(e) => Err(e),
            Ok(t) => if has_label(t.labels, names.last()) {
                Err(LayoutFailure::DuplicateLabel(names.last()))
            } else {
                Ok(
                    LayoutModel {
                        labels: t.labels.push((names.last(), t.cursor)),
                        memory: t.memory,
                        cursor: t.cursor,
                    },
                )
            },
        }
    }
}

/// The effect of the content of the line at `index`.
pub open spec fn apply_content(m: LayoutModel, c: LineContent, index: usize) -> Result<LayoutModel, LayoutFailure> {
    match c {
        LineContent::Instruction { .. } => place_cells(m, seq![Placement::Line(index)]),
        LineContent::Directive { directive, argument } => match directive_kind(directive@) {
            DirectiveKind::Word => place_cells(m, seq![Placement::Line(index)]),
            DirectiveKind::Space => match const_value(argument@) {
                None => Err(LayoutFailure::ArgumentParseError(argument@)),
                Some(n) => place_cells(m, reserved_cells(n as nat)),
            },
            DirectiveKind::Addr => match const_value(argument@) {
                None => Err(LayoutFailure::ArgumentParseError(argument@)),
                Some(a) => Ok(LayoutModel { labels: m.labels, memory: m.memory, cursor: a }),
            },
            DirectiveKind::Str => match string_value(argument@) {
                None => Err(LayoutFailure::ArgumentParseError(argument@)),
                Some(cs) => place_cells(m, text_cells(cs)),
            },
            DirectiveKind::Unsupported => Err(LayoutFailure::UnsupportedDirective(directive@)),
        },
    }
}

/// The effect of the line `line`, at `index` in the program: its labels, then its content.
pub open spec fn apply_line(m: LayoutModel, line: Line, index: usize) -> Result<LayoutModel, LayoutFailure> {
    match bind_labels(m, names_view(line.symbols@)) {
        Err(e) => Err(e),
        Ok(t) => match line.content {
            None => Ok(t),
            Some(c) => apply_content(t, c, index),
        },
    }
}

/// The state after the first `n` lines of `program`, or the first failure.
pub open spec fn layout_prefix(program: Seq<Line>, n: nat) -> Result<LayoutModel, LayoutFailure>
    decreases n,
{
    if n == 0 {
        Ok(initial_model())
    } else {
        match layout_prefix(program, (n - 1) as nat) {
            Err(e) => Err(e),
            Ok(m) => apply_line(m, program[n - 1], (n - 1) as usize),
        }
    }
}

/// The outcome of the pass on the whole of `program`.
pub open spec fn layout_of(program: Seq<Line>) -> Result<LayoutModel, LayoutFailure> {
    layout_prefix(program, program.len())
}

/// Which directive `name` stands for.
pub fn classify_directive(name: &str) -> (k: DirectiveKind)
    ensures
        k == directive_kind(name@),
{
    let cs = chars_of(name);
    let n = cs.len();
    if n == 4 && cs[0] == 'w' && cs[1] == 'o' && cs[2] == 'r' && cs[3] == 'd' {
        assert(cs@ =~= seq!['w', 'o', 'r', 'd']);
        DirectiveKind::Word
    } else if n == 5 && cs[0] == 's' && cs[1] == 'p' && cs[2] == 'a' && cs[3] == 'c' && cs[4] == 'e' {
        assert(cs@ =~= seq!['s', 'p', 'a', 'c', 'e']);
        DirectiveKind::Space
    } else if n == 4 && cs[0] == 'a' && cs[1] == 'd' && cs[2] == 'd' && cs[3] == 'r' {
        assert(cs@ =~= seq!['a', 'd', 'd', 'r']);
        DirectiveKind::Addr
    } else if n == 6 && cs[0] == 's' && cs[1] == 't' && cs[2] == 'r' && cs[3] == 'i' && cs[4] == 'n'
        && cs[5] == 'g' {
        assert(cs@ =~= seq!['s', 't', 'r', 'i', 'n', 'g']);
        DirectiveKind::Str
    } else {
        proof {
            if cs@ == seq!['w', 'o', 'r', 'd'] {
                assert(cs@[0] == 'w' && cs@[1] == 'o' && cs@[2] == 'r' && cs@[3] == 'd');
            }
            if cs@ == seq!['s', 'p', 'a', 'c', 'e'] {
                assert(cs@[0] == 's' && cs@[1] == 'p' && cs@[2] == 'a' && cs@[3] == 'c' && cs@[4] == 'e');
            }
            if cs@ == seq!['a', 'd', 'd', 'r'] {
                assert(cs@[0] == 'a' && cs@[1] == 'd' && cs@[2] == 'd' && cs@[3] == 'r');
            }
            if cs@ == seq!['s', 't', 'r', 'i', 'n', 'g'] {
                assert(cs@[0] == 's' && cs@[1] == 't' && cs@[2] == 'r' && cs@[3] == 'i' && cs@[4] == 'n' && cs@[5] == 'g');
            }
        }
        DirectiveKind::Unsupported
    }
}

/// Whether a label named `name` is among `labels`.
fn find_label(labels: &Vec<Label>, name: &String) -> (found: bool)
    ensures
        found == has_label(labels_view(labels@), name@),
{
    let ghost lv = labels_view(labels@);
    let mut i: usize = 0;
    while i < labels.len()
        invariant
            i <= labels@.len(),
            lv == labels_view(labels@),
            forall|j: int| 0 <= j < i ==> (#[trigger] lv[j]).0 != name@,
        decreases labels.len() - i,
    {
        if labels[i].name == *name {
            assert(lv[i as int].0 == name@);
            return true;
        }
        i = i + 1;
    }
    false
}

/// Reserves the `n` cells from `start`.
fn fill_reserved(memory: &mut HashMap<u64, Placement>, start: u64, n: u64)
    requires
        start + n <= u64::MAX,
    ensures
        final(memory)@ == old(memory)@.union_prefer_right(
            cells_from(start, reserved_cells(n as nat)),
        ),
{
    let ghost before = memory@;
    let mut k: u64 = 0;
    while k < n
        invariant
            k <= n,
            start + n <= u64::MAX,
            memory@ == before.union_prefer_right(
                cells_from(start, reserved_cells(k as nat)),
            ),
        decreases n - k,
    {
        memory.insert(start + k, Placement::Reserved);
        assert(memory@ =~= before.union_prefer_right(
            cells_from(start, reserved_cells((k + 1) as nat)),
        ));
        k = k + 1;
    }
}

/// Places the characters `cs`, one per cell, from `start`.
fn fill_chars(memory: &mut HashMap<u64, Placement>, start: u64, cs: &Vec<char>)
    requires
        start + cs@.len() <= u64::MAX,
    ensures
        final(memory)@ == old(memory)@.union_prefer_right(
            cells_from(start, text_cells(cs@)),
        ),
{
    let ghost before = memory@;
    let mut k: usize = 0;
    assert(before.union_prefer_right(cells_from(start, text_cells(cs@.take(0)))) =~= before);
    while k < cs.len()
        invariant
            k <= cs@.len(),
            start + cs@.len() <= u64::MAX,
            memory@ == before.union_prefer_right(
                cells_from(start, text_cells(cs@.take(k as int))),
            ),
        decreases cs.len() - k,
    {
        memory.insert(start + k as u64, Placement::Char(cs[k]));
        assert(text_cells(cs@.take(k + 1)) =~= text_cells(cs@.take(k as int)).push(
            char_cell(cs@[k as int]),
        ));
        assert(memory@ =~= before.union_prefer_right(
            cells_from(start, text_cells(cs@.take(k + 1))),
        ));
        k = k + 1;
    }
    assert(cs@.take(k as int) =~= cs@);
}

/// Once binding a prefix of the names fails, binding all of them fails the same way.
proof fn lemma_bind_failure_persists(m: LayoutModel, names: Seq<Seq<char>>, j: int)
    requires
        0 <= j <= names.len(),
        bind_labels(m, names.take(j)) is Err,
    ensures
        bind_labels(m, names) == bind_labels(m, names.take(j)),
    decreases names.len(),
{
    if j < names.len() {
        assert(names.drop_last().take(j) =~= names.take(j));
        lemma_bind_failure_persists(m, names.drop_last(), j);
    } else {
        assert(names.take(j) =~= names);
    }
}

/// Once the pass fails on a prefix of the program, it fails the same way on the whole.
pub(crate) proof fn lemma_layout_failure_persists(program: Seq<Line>, j: nat, n: nat)
    requires
        j <= n,
        layout_prefix(program, j) is Err,
    ensures
        layout_prefix(program, n) == layout_prefix(program, j),
    decreases n,
{
    if j < n {
        lemma_layout_failure_persists(program, j, (n - 1) as nat);
    }
}

/// Binds the labels `symbols` of one line, in order, to `cursor`.
fn bind_symbols(
    labels: &mut Vec<Label>,
    symbols: &Vec<String>,
    cursor: u64,
    Ghost(memory): Ghost<Map<u64, Placement>>,
) -> (r: Result<(), MemoryLayoutError>)
    ensures
        ({
            let before = LayoutModel { labels: labels_view(old(labels)@), memory, cursor };
            match bind_labels(before, names_view(symbols@)) {
                Ok(t) => r is Ok && t == LayoutModel {
                    labels: labels_view(final(labels)@),
                    memory,
                    cursor,
                },
                Err(e) => r matches Err(x) && x.view() == e,
            }
        }),
{
    let ghost before = LayoutModel { labels: labels_view(labels@), memory, cursor };
    let ghost initial = labels@;
    let ghost names = names_view(symbols@);
    let mut k: usize = 0;
    assert(names.take(0) =~= Seq::<Seq<char>>::empty());
    while k < symbols.len()
        invariant
            k <= symbols@.len(),
            names == names_view(symbols@),
            initial == old(labels)@,
            before == (LayoutModel { labels: labels_view(initial), memory, cursor }),
            bind_labels(before, names.take(k as int)) == Ok::<LayoutModel, LayoutFailure>(
                LayoutModel { labels: labels_view(labels@), memory, cursor },
            ),
        decreases symbols.len() - k,
    {
        let name = &symbols[k];
        assert(names.take(k + 1).drop_last() =~= names.take(k as int));
        assert(names.take(k + 1).last() == name@);
        if find_label(labels, name) {
            proof {
                assert(bind_labels(before, names.take(k + 1)) == Err::<LayoutModel, LayoutFailure>(
                    LayoutFailure::DuplicateLabel(name@),
                ));
                lemma_bind_failure_persists(before, names, k + 1);
            }
            return Err(MemoryLayoutError::DuplicateLabel { label: name.clone() });
        }
        let ghost old_labels = labels@;
        labels.push(Label { name: name.clone(), address: cursor });
        assert(labels_view(labels@) =~= labels_view(old_labels).push((name@, cursor)));
        k = k + 1;
    }
    assert(names.take(k as int) =~= names);
    Ok(())
}

/// Lays out `program`: binds each label to the address of what follows it and
/// records the placement of each occupied cell, starting at `PROGRAM_START`.
/// Fails on the first duplicate label, unsupported directive, unreadable
/// argument, or address past `u64::MAX`, as `layout_of` describes.
pub fn layout_memory(program: &[Line]) -> (r: Result<Layout, MemoryLayoutError>)
    ensures
        match layout_of(program@) {
            Ok(m) => r matches Ok(l) && l.holds(m),
            Err(e) => r matches Err(x) && x.view() == e,
        },
{
    let mut labels: Vec<Label> = Vec::new();
    let mut memory: HashMap<u64, Placement> = HashMap::new();
    let mut cursor: u64 = PROGRAM_START;
    let mut i: usize = 0;
    assert(labels_view(labels@) =~= Seq::<(Seq<char>, u64)>::empty());
    assert(memory@ =~= Map::<u64, Placement>::empty());
    while i < program.len()
        invariant
            i <= program@.len(),
            layout_prefix(program@, i as nat) == Ok::<LayoutModel, LayoutFailure>(
                LayoutModel { labels: labels_view(labels@), memory: memory@, cursor },
            ),
        decreases program.len() - i,
    {
        let line = &program[i];
        let ghost before = LayoutModel { labels: labels_view(labels@), memory: memory@, cursor };
        assert(layout_prefix(program@, (i + 1) as nat) == apply_line(before, *line, i));
        let bound = bind_symbols(&mut labels, &line.symbols, cursor, Ghost(memory@));
        if let Err(e) = bound {
            proof {
                lemma_layout_failure_persists(program@, (i + 1) as nat, program@.len());
            }
            return Err(e);
        }
        let ghost after_labels = LayoutModel {
            labels: labels_view(labels@),
            memory: memory@,
            cursor,
        };
        let mut failure: Option<MemoryLayoutError> = None;
        match &line.content {
            None => {},
            Some(content) => {
                let one_cell = match content {
                    LineContent::Instruction { .. } => true,
                    LineContent::Directive { directive, argument } => {
                        let kind = classify_directive(directive.as_str());
                        match kind {
                            DirectiveKind::Word => true,
                            DirectiveKind::Space => {
                                match parse_const_expression(argument.as_str()) {
                                    None => {
                                        failure = Some(
                                            MemoryLayoutError::ArgumentParseError {
                                                argument: argument.clone(),
                                            },
                                        );
                                    },
                                    Some(n) => {
                                        if cursor > u64::MAX - n {
                                            failure = Some(MemoryLayoutError::AddressOverflow);
                                        } else {
                                            fill_reserved(&mut memory, cursor, n);
                                            cursor = cursor + n;
                                        }
                                    },
                                }
                                false
                            },
                            DirectiveKind::Addr => {
                                match parse_const_expression(argument.as_str()) {
                                    None => {
                                        failure = Some(
                                            MemoryLayoutError::ArgumentParseError {
                                                argument: argument.clone(),
                                            },
                                        );
                                    },
                                    Some(a) => {
                                        cursor = a;
                                    },
                                }
                                false
                            },
                            DirectiveKind::Str => {
                                match parse_string_literal(argument.as_str()) {
                                    None => {
                                        failure = Some(
                                            MemoryLayoutError::ArgumentParseError {
                                                argument: argument.clone(),
                                            },
                                        );
                                    },
                                    Some(cs) => {
                                        if cursor as u128 + cs.len() as u128 > u64::MAX as u128 {
                                            failure = Some(MemoryLayoutError::AddressOverflow);
                                        } else {
                                            fill_chars(&mut memory, cursor, &cs);
                                            cursor = cursor + cs.len() as u64;
                                        }
                                    },
                                }
                                false
                            },
                            DirectiveKind::Unsupported => {
                                failure = Some(
                                    MemoryLayoutError::UnsupportedDirective {
                                        directive: directive.clone(),
                                    },
                                );
                                false
                            },
                        }
                    },
                };
                if one_cell {
                    if cursor == u64::MAX {
                        failure = Some(MemoryLayoutError::AddressOverflow);
                    } else {
                        let ghost old_memory = memory@;
                        memory.insert(cursor, Placement::Line(i));
                        assert(memory@ =~= old_memory.union_prefer_right(
                            cells_from(cursor, seq![Placement::Line(i)]),
                        ));
                        cursor = cursor + 1;
                    }
                }
            },
        }
        if let Some(e) = failure {
            proof {
                lemma_layout_failure_persists(program@, (i + 1) as nat, program@.len());
            }
            return Err(e);
        }
        i = i + 1;
    }
    Ok(Layout { labels, memory })
}

} // verus!
