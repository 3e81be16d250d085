//! The program that the layout pass reads: an ordered list of source lines.
use vstd::prelude::*;

verus! {

/// What a line holds besides its labels.
pub enum LineContent {
    /// An instruction: an opcode and its operands, read by later passes only.
    Instruction { opcode: String, arguments: Vec<String> },
    /// A directive: its name and its argument, not yet parsed.
    Directive { directive: String, argument: String },
}

/// One source line: the labels attached to it and what it holds, if anything.
pub struct Line {
    pub symbols: Vec<String>,
    pub content: Option<LineContent>,
}

/// The characters of each name, in order.
pub open spec fn names_view(symbols: Seq<String>) -> Seq<Seq<char>> {
    symbols.map_values(|s: String| s@)
}

/// Owned copies of the given strings.
fn owned_all(items: Vec<&str>) -> (r: Vec<String>)
    ensures
        r@.len() == items@.len(),
        forall|i: int| 0 <= i < r@.len() ==> r@[i]@ == items@[i]@,
{
    let mut r: Vec<String> = Vec::new();
    let mut i: usize = 0;
    while i < items.len()
        invariant
            i <= items@.len(),
            r@.len() == i,
            forall|j: int| 0 <= j < i ==> r@[j]@ == items@[j]@,
        decreases items.len() - i,
    {
        r.push(items[i].to_owned());
        i = i + 1;
    }
    r
}

impl Line {
    /// A line with no label and no content.
    pub fn new() -> (r: Line)
        ensures
            r.symbols@.len() == 0,
            r.content is None,
    {
        Line { symbols: Vec::new(), content: None }
    }

    /// This line with one more label, `name`, after those it has.
    pub fn symbol(self, name: &str) -> (r: Line)
        ensures
            names_view(r.symbols@) == names_view(self.symbols@).push(name@),
            r.content == self.content,
    {
        let mut symbols = self.symbols;
        symbols.push(name.to_owned());
        assert(names_view(symbols@) =~= names_view(self.symbols@).push(name@));
        Line { symbols, content: self.content }
    }

    /// This line with the instruction `opcode arguments...` as its content.
    pub fn instruction(self, opcode: &str, arguments: Vec<&str>) -> (r: Line)
        ensures
            r.symbols == self.symbols,
            r.content matches Some(LineContent::Instruction { opcode: o, arguments: a }) && o@
                == opcode@ && a@.len() == arguments@.len() && forall|i: int|
                0 <= i < a@.len() ==> a@[i]@ == arguments@[i]@,
    {
        let content = LineContent::Instruction {
            opcode: opcode.to_owned(),
            arguments: owned_all(arguments),
        };
        Line { symbols: self.symbols, content: Some(content) }
    }

    /// This line with the directive `directive argument` as its content.
    pub fn directive(self, directive: &str, argument: &str) -> (r: Line)
        ensures
            r.symbols == self.symbols,
            r.content matches Some(LineContent::Directive { directive: d, argument: a }) && d@
                == directive@ && a@ == argument@,
    {
        let content = LineContent::Directive {
            directive: directive.to_owned(),
            argument: argument.to_owned(),
        };
        Line { symbols: self.symbols, content: Some(content) }
    }
}

impl Default for Line {
    fn default() -> (r: Line)
        ensures
            r.symbols@.len() == 0,
            r.content is None,
    {
        Line::new()
    }
}

} // verus!
