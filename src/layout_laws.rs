//! What the layout pass guarantees of whole programs, proved over its model.
use vstd::prelude::*;

use crate::argument::{const_value, string_value};
use crate::layout::{
    apply_content, bind_labels, cells_from, directive_kind, has_label, label_address,
    layout_of, layout_prefix, lemma_layout_failure_persists, reserved_cells, text_cells,
    DirectiveKind, LayoutFailure, LayoutModel, Placement,
};
use crate::program::{names_view, Line, LineContent};

verus! {

/// The label names of the first `n` lines of `program`, in order.
pub open spec fn program_names(program: Seq<Line>, n: nat) -> Seq<Seq<char>>
    decreases n,
{
    if n == 0 {
        Seq::empty()
    } else {
        program_names(program, (n - 1) as nat) + names_view(program[n - 1].symbols@)
    }
}

/// No label name occurs twice in `program`.
pub open spec fn labels_unique(program: Seq<Line>) -> bool {
    program_names(program, program.len()).no_duplicates()
}

/// Every directive of `program` is one of `word`, `space`, `addr` and `string`.
pub open spec fn directives_supported(program: Seq<Line>) -> bool {
    forall|i: int|
        0 <= i < program.len() ==> match #[trigger] program[i].content {
            Some(LineContent::Directive { directive, .. }) => directive_kind(directive@)
                != DirectiveKind::Unsupported,
            _ => true,
        }
}

/// `x` occurs at least twice in `s`.
pub open spec fn occurs_twice(s: Seq<Seq<char>>, x: Seq<char>) -> bool {
    exists|a: int, b: int| 0 <= a < b < s.len() && s[a] == x && s[b] == x
}

/// The names of `labels` are `names`, in order.
pub open spec fn names_match(labels: Seq<(Seq<char>, u64)>, names: Seq<Seq<char>>) -> bool {
    labels.len() == names.len() && forall|j: int| 0 <= j < labels.len() ==> (#[trigger] labels[j]).0 == names[j]
}

/// Binding `names` appends one label per name, at the current address, and
/// changes nothing else; it fails only on a name already bound or repeated.
proof fn lemma_bind_effect(m: LayoutModel, names: Seq<Seq<char>>)
    ensures
        bind_labels(m, names) matches Ok(t) ==> {
            &&& t.memory == m.memory
            &&& t.cursor == m.cursor
            &&& t.labels.len() == m.labels.len() + names.len()
            &&& t.labels.take(m.labels.len() as int) == m.labels
            &&& forall|k: int| 0 <= k < names.len() ==> t.labels[m.labels.len() + k] == (names[k], m.cursor)
        },
        bind_labels(m, names) matches Err(e) ==> e is DuplicateLabel,
        (forall|k: int| 0 <= k < names.len() ==> !has_label(m.labels, #[trigger] names[k]))
            && names.no_duplicates() <==> bind_labels(m, names) is Ok,
        bind_labels(m, names) matches Err(LayoutFailure::DuplicateLabel(x)) ==> names.contains(x) && (
        has_label(m.labels, x) || occurs_twice(names, x)),
    decreases names.len(),
{
    if names.len() == 0 {
        assert(m.labels.take(m.labels.len() as int) =~= m.labels);
    } else {
        let init = names.drop_last();
        lemma_bind_effect(m, init);
        if let Err(LayoutFailure::DuplicateLabel(y)) = bind_labels(m, init) {
            let k = choose|k: int| 0 <= k < init.len() && init[k] == y;
            assert(names[k] == y);
            if occurs_twice(init, y) {
                let (a, b) = choose|a: int, b: int| 0 <= a < b < init.len() && init[a] == y && init[b] == y;
                assert(names[a] == y && names[b] == y);
            }
        }
        if !((forall|k: int| 0 <= k < init.len() ==> !has_label(m.labels, #[trigger] init[k])) && init.no_duplicates()) {
            if !init.no_duplicates() {
                let (a, b) = choose|a: int, b: int| 0 <= a < init.len() && 0 <= b < init.len() && a != b && init[a] == init[b];
                assert(names[a] == names[b]);
            } else {
                let k = choose|k: int| 0 <= k < init.len() && has_label(m.labels, #[trigger] init[k]);
                assert(names[k] == init[k]);
            }
        }
        if let Ok(t) = bind_labels(m, init) {
            let x = names.last();
            assert(t.labels.take(m.labels.len() as int) =~= m.labels);
            if has_label(t.labels, x) {
                assert(names[names.len() - 1] == x);
                let j = choose|j: int| 0 <= j < t.labels.len() && (#[trigger] t.labels[j]).0 == x;
                if j < m.labels.len() {
                    assert(t.labels.take(m.labels.len() as int)[j] == t.labels[j]);
                    assert(has_label(m.labels, x));
                } else {
                    let k = j - m.labels.len();
                    assert(t.labels[m.labels.len() + k] == (init[k], m.cursor));
                    assert(names[k] == x && names[names.len() - 1] == x);
                    assert(occurs_twice(names, x));
                }
            }
            if let Ok(u) = bind_labels(m, names) {
                assert forall|k: int| 0 <= k < names.len() implies !has_label(m.labels, #[trigger] names[k]) by {
                    if k < init.len() {
                        assert(init[k] == names[k]);
                    } else if has_label(m.labels, x) {
                        let j = choose|j: int| 0 <= j < m.labels.len() && (#[trigger] m.labels[j]).0 == x;
                        assert(t.labels.take(m.labels.len() as int)[j] == t.labels[j]);
                        assert(t.labels[j].0 == x);
                    }
                }
                assert(names.no_duplicates()) by {
                    assert forall|a: int, b: int| 0 <= a < names.len() && 0 <= b < names.len() && a != b
                        implies names[a] != names[b] by {
                        if a < init.len() && b < init.len() {
                            assert(init[a] == names[a] && init[b] == names[b]);
                        } else if a < init.len() {
                            assert(t.labels[m.labels.len() + a] == (init[a], m.cursor));
                            assert(init[a] == names[a]);
                        } else {
                            assert(t.labels[m.labels.len() + b] == (init[b], m.cursor));
                            assert(init[b] == names[b]);
                        }
                    }
                }
                assert(u.labels.take(m.labels.len() as int) =~= m.labels);
                assert forall|k: int| 0 <= k < names.len() implies u.labels[m.labels.len() + k] == (
                    names[k],
                    m.cursor,
                ) by {
                    if k < init.len() {
                        assert(init[k] == names[k]);
                    }
                }
            }
            if (forall|k: int| 0 <= k < names.len() ==> !has_label(m.labels, #[trigger] names[k]))
                && names.no_duplicates() {
                assert forall|k: int| 0 <= k < init.len() implies !has_label(m.labels, #[trigger] init[k]) by {
                    assert(init[k] == names[k]);
                }
                assert(init.no_duplicates()) by {
                    assert forall|a: int, b: int| 0 <= a < init.len() && 0 <= b < init.len() && a != b
                        implies init[a] != init[b] by {
                        assert(init[a] == names[a] && init[b] == names[b]);
                    }
                }
                if has_label(t.labels, x) {
                    let j = choose|j: int| 0 <= j < t.labels.len() && (#[trigger] t.labels[j]).0 == x;
                    if j < m.labels.len() {
                        assert(t.labels[j] == m.labels[j]);
                        assert(!has_label(m.labels, names[names.len() - 1]));
                    } else {
                        let k = j - m.labels.len();
                        assert(t.labels[m.labels.len() + k] == (init[k], m.cursor));
                        assert(names[k] == names[names.len() - 1]);
                    }
                }
            }
        }
    }
}

/// The content of a line leaves the labels alone and never fails on a label.
proof fn lemma_content_effect(m: LayoutModel, c: LineContent, index: usize)
    ensures
        apply_content(m, c, index) matches Ok(t) ==> t.labels == m.labels,
        apply_content(m, c, index) matches Err(e) ==> !(e is DuplicateLabel),
        apply_content(m, c, index) matches Err(LayoutFailure::UnsupportedDirective(d)) ==> (
        c matches LineContent::Directive { directive, .. } && directive@ == d && directive_kind(d)
            == DirectiveKind::Unsupported),
{
}

/// A sequence without repeats has no repeats in either part.
proof fn lemma_no_duplicates_parts(a: Seq<Seq<char>>, b: Seq<Seq<char>>)
    requires
        (a + b).no_duplicates(),
    ensures
        a.no_duplicates(),
        b.no_duplicates(),
        forall|i: int, j: int| 0 <= i < a.len() && 0 <= j < b.len() ==> a[i] != b[j],
{
    let s = a + b;
    assert forall|i: int, j: int| 0 <= i < a.len() && 0 <= j < a.len() && i != j implies a[i] != a[j] by {
        assert(s[i] == a[i] && s[j] == a[j]);
    }
    assert forall|i: int, j: int| 0 <= i < b.len() && 0 <= j < b.len() && i != j implies b[i] != b[j] by {
        assert(s[a.len() + i] == b[i] && s[a.len() + j] == b[j]);
    }
    assert forall|i: int, j: int| 0 <= i < a.len() && 0 <= j < b.len() implies a[i] != b[j] by {
        assert(s[i] == a[i] && s[a.len() + j] == b[j]);
    }
}

/// After the first `n` lines the labels are their names, in order; with
/// distinct names and supported directives, only an argument or the address
/// range can make the pass fail.
proof fn lemma_prefix_labels(program: Seq<Line>, n: nat)
    requires
        n <= program.len(),
    ensures
        layout_prefix(program, n) matches Ok(m) ==> names_match(m.labels, program_names(program, n))
            && program_names(program, n).no_duplicates(),
        layout_prefix(program, n) matches Err(LayoutFailure::DuplicateLabel(x)) ==> occurs_twice(
            program_names(program, n),
            x,
        ),
        program_names(program, n).no_duplicates() && directives_supported(program) ==> (
        layout_prefix(program, n) matches Err(e) ==> (e is ArgumentParseError || e is AddressOverflow)),
    decreases n,
{
    if n > 0 {
        let k = (n - 1) as nat;
        let line = program[k as int];
        let names = names_view(line.symbols@);
        let before = program_names(program, k);
        if program_names(program, n).no_duplicates() {
            lemma_no_duplicates_parts(before, names);
        }
        lemma_prefix_labels(program, k);
        let all = before + names;
        if let Err(LayoutFailure::DuplicateLabel(x)) = layout_prefix(program, k) {
            let (a, b) = choose|a: int, b: int| 0 <= a < b < before.len() && before[a] == x && before[b] == x;
            assert(all[a] == x && all[b] == x);
        }
        if let Ok(m) = layout_prefix(program, k) {
            lemma_bind_effect(m, names);
            if program_names(program, n).no_duplicates() {
                assert forall|j: int| 0 <= j < names.len() implies !has_label(m.labels, #[trigger] names[j]) by {
                    if has_label(m.labels, names[j]) {
                        let i = choose|i: int| 0 <= i < m.labels.len() && (#[trigger] m.labels[i]).0 == names[j];
                        assert(before[i] == names[j]);
                    }
                }
            }
            if let Err(LayoutFailure::DuplicateLabel(x)) = bind_labels(m, names) {
                let k2 = choose|k2: int| 0 <= k2 < names.len() && names[k2] == x;
                assert(all[before.len() + k2] == x);
                if has_label(m.labels, x) {
                    let j = choose|j: int| 0 <= j < m.labels.len() && (#[trigger] m.labels[j]).0 == x;
                    assert(all[j] == x);
                } else {
                    let (a, b) = choose|a: int, b: int| 0 <= a < b < names.len() && names[a] == x && names[b] == x;
                    assert(all[before.len() + a] == x && all[before.len() + b] == x);
                }
            }
            if let Ok(t) = bind_labels(m, names) {
                assert(all.no_duplicates()) by {
                    assert forall|a: int, b: int| 0 <= a < all.len() && 0 <= b < all.len() && a != b
                        implies all[a] != all[b] by {
                        if a >= before.len() && b < before.len() {
                            assert(!has_label(m.labels, names[a - before.len()]));
                            assert(m.labels[b].0 == before[b]);
                        } else if a < before.len() && b >= before.len() {
                            assert(!has_label(m.labels, names[b - before.len()]));
                            assert(m.labels[a].0 == before[a]);
                        }
                    }
                }
                assert(names_match(t.labels, before + names)) by {
                    assert forall|j: int| 0 <= j < t.labels.len() implies (#[trigger] t.labels[j]).0 == (before + names)[j] by {
                        if j < m.labels.len() {
                            assert(t.labels.take(m.labels.len() as int)[j] == t.labels[j]);
                        } else {
                            assert(t.labels[m.labels.len() + (j - m.labels.len())] == (names[j - m.labels.len()], m.cursor));
                        }
                    }
                }
                if let Some(c) = line.content {
                    lemma_content_effect(t, c, k as usize);
                    assert(directives_supported(program) ==> match program[k as int].content {
                        Some(LineContent::Directive { directive, .. }) => directive_kind(directive@)
                            != DirectiveKind::Unsupported,
                        _ => true,
                    });
                }
            }
        }
    }
}

/// One line appends the labels of that line, bound to the address at which the
/// line was reached, and keeps those bound before.
proof fn lemma_line_labels(program: Seq<Line>, i: nat)
    requires
        i < program.len(),
        layout_prefix(program, i + 1) is Ok,
    ensures
        layout_prefix(program, i) is Ok,
        ({
            let a = layout_prefix(program, i)->Ok_0;
            let b = layout_prefix(program, i + 1)->Ok_0;
            let names = names_view(program[i as int].symbols@);
            &&& b.labels.len() == a.labels.len() + names.len()
            &&& b.labels.take(a.labels.len() as int) == a.labels
            &&& forall|k: int| 0 <= k < names.len() ==> b.labels[a.labels.len() + k] == (names[k], a.cursor)
        }),
{
    let a = layout_prefix(program, i)->Ok_0;
    let line = program[i as int];
    lemma_bind_effect(a, names_view(line.symbols@));
    if let Ok(t) = bind_labels(a, names_view(line.symbols@)) {
        if let Some(c) = line.content {
            lemma_content_effect(t, c, i as usize);
        }
    }
}

/// Later lines never remove or rebind a label.
proof fn lemma_labels_grow(program: Seq<Line>, a: nat, b: nat)
    requires
        a <= b <= program.len(),
        layout_prefix(program, b) is Ok,
    ensures
        layout_prefix(program, a) is Ok,
        layout_prefix(program, a)->Ok_0.labels.len() <= layout_prefix(program, b)->Ok_0.labels.len(),
        layout_prefix(program, b)->Ok_0.labels.take(layout_prefix(program, a)->Ok_0.labels.len() as int)
            == layout_prefix(program, a)->Ok_0.labels,
    decreases b,
{
    if a == b {
        let m = layout_prefix(program, b)->Ok_0;
        assert(m.labels.take(m.labels.len() as int) =~= m.labels);
    } else {
        let c = (b - 1) as nat;
        lemma_line_labels(program, c);
        lemma_labels_grow(program, a, c);
        let la = layout_prefix(program, a)->Ok_0.labels;
        let lc = layout_prefix(program, c)->Ok_0.labels;
        let lb = layout_prefix(program, b)->Ok_0.labels;
        assert(lb.take(la.len() as int) =~= la) by {
            assert forall|j: int| 0 <= j < la.len() implies lb.take(la.len() as int)[j] == la[j] by {
                assert(lb.take(lc.len() as int)[j] == lc[j]);
                assert(lc.take(la.len() as int)[j] == la[j]);
            }
        }
    }
}

/// Distinct label names and supported directives: the pass fails only on an
/// unreadable argument or an address past `u64::MAX`; and when it succeeds,
/// each label is bound to the address the cursor held when its line was reached.
pub proof fn law_layout_succeeds(program: Seq<Line>)
    requires
        labels_unique(program),
        directives_supported(program),
    ensures
        layout_of(program) matches Err(e) ==> (e is ArgumentParseError || e is AddressOverflow),
        layout_of(program) matches Ok(m) ==> forall|i: int, k: int|
            0 <= i < program.len() && 0 <= k < program[i].symbols@.len() ==> label_address(
                m.labels,
                #[trigger] names_view(program[i].symbols@)[k],
            ) == Some(layout_prefix(program, i as nat)->Ok_0.cursor),
{
    let n = program.len();
    lemma_prefix_labels(program, n);
    if let Ok(m) = layout_of(program) {
        assert forall|i: int, k: int|
            0 <= i < program.len() && 0 <= k < program[i].symbols@.len() implies label_address(
                m.labels,
                #[trigger] names_view(program[i].symbols@)[k],
            ) == Some(layout_prefix(program, i as nat)->Ok_0.cursor) by {
            let names = names_view(program[i].symbols@);
            lemma_labels_grow(program, (i + 1) as nat, n);
            lemma_line_labels(program, i as nat);
            let a = layout_prefix(program, i as nat)->Ok_0;
            let b = layout_prefix(program, (i + 1) as nat)->Ok_0;
            let j0 = a.labels.len() + k;
            assert(b.labels[j0] == (names[k], a.cursor));
            assert(m.labels[j0] == b.labels[j0]) by {
                assert(m.labels.take(b.labels.len() as int)[j0] == m.labels[j0]);
            }
            assert(has_label(m.labels, names[k]));
            let j = choose|j: int| 0 <= j < m.labels.len() && (#[trigger] m.labels[j]).0 == names[k];
            let all = program_names(program, n);
            assert(all[j] == names[k] && all[j0] == names[k]);
            assert(j == j0);
        }
    }
}

/// A line whose content is an instruction or a `word` directive fills the one
/// cell at the current address with a reference to itself and advances the
/// address by exactly one; the labels of the next line see that address.
pub proof fn law_single_cell_line(program: Seq<Line>, i: nat)
    requires
        i < program.len(),
        layout_prefix(program, i) is Ok,
        match program[i as int].content {
            Some(LineContent::Instruction { .. }) => true,
            Some(LineContent::Directive { directive, .. }) => directive_kind(directive@)
                == DirectiveKind::Word,
            None => false,
        },
    ensures
        ({
            let a = layout_prefix(program, i)->Ok_0;
            match layout_prefix(program, i + 1) {
                Ok(b) => b.cursor == a.cursor + 1 && b.memory == a.memory.insert(
                    a.cursor,
                    Placement::Line(i as usize),
                ),
                Err(e) => e is DuplicateLabel || (e is AddressOverflow && a.cursor == u64::MAX),
            }
        }),
        i + 1 < program.len() && layout_prefix(program, i + 2) is Ok ==> forall|k: int|
            0 <= k < program[i + 1int].symbols@.len() ==> (#[trigger] layout_prefix(
                program,
                i + 2,
            )->Ok_0.labels[layout_prefix(program, i + 1)->Ok_0.labels.len() + k]) == (
            names_view(program[i + 1int].symbols@)[k],
            (layout_prefix(program, i)->Ok_0.cursor + 1) as u64,
        ),
{
    let a = layout_prefix(program, i)->Ok_0;
    lemma_bind_effect(a, names_view(program[i as int].symbols@));
    if let Ok(b) = layout_prefix(program, i + 1) {
        assert(b.memory =~= a.memory.insert(a.cursor, Placement::Line(i as usize)));
    }
    if i + 1 < program.len() && layout_prefix(program, i + 2) is Ok {
        lemma_line_labels(program, i + 1);
    }
}

/// A `space N` line reserves exactly the `N` cells from the current address
/// and advances the address by `N`; with `N` zero it places nothing.
pub proof fn law_space_line(program: Seq<Line>, i: nat, n: u64)
    requires
        i < program.len(),
        layout_prefix(program, i) is Ok,
        program[i as int].content matches Some(LineContent::Directive { directive, argument })
            && directive_kind(directive@) == DirectiveKind::Space && const_value(argument@) == Some(n),
    ensures
        ({
            let a = layout_prefix(program, i)->Ok_0;
            match layout_prefix(program, i + 1) {
                Ok(b) => {
                    &&& b.cursor == a.cursor + n
                    &&& b.memory == a.memory.union_prefer_right(cells_from(a.cursor, reserved_cells(n as nat)))
                    &&& forall|x: u64| a.cursor <= x < a.cursor + n ==> b.memory.contains_key(x)
                        && #[trigger] b.memory[x] == Placement::Reserved
                    &&& n == 0 ==> b.memory == a.memory
                },
                Err(e) => e is DuplicateLabel || (e is AddressOverflow && a.cursor + n > u64::MAX),
            }
        }),
{
    let a = layout_prefix(program, i)->Ok_0;
    lemma_bind_effect(a, names_view(program[i as int].symbols@));
    if let Ok(b) = layout_prefix(program, i + 1) {
        if n == 0 {
            assert(b.memory =~= a.memory);
        }
    }
}

/// A `string` line fills one cell per decoded character, not per byte, from
/// the current address, and advances the address by the number of characters.
pub proof fn law_string_line(program: Seq<Line>, i: nat, text: Seq<char>)
    requires
        i < program.len(),
        layout_prefix(program, i) is Ok,
        program[i as int].content matches Some(LineContent::Directive { directive, argument })
            && directive_kind(directive@) == DirectiveKind::Str && string_value(argument@) == Some(text),
    ensures
        ({
            let a = layout_prefix(program, i)->Ok_0;
            match layout_prefix(program, i + 1) {
                Ok(b) => {
                    &&& b.cursor == a.cursor + text.len()
                    &&& b.memory == a.memory.union_prefer_right(cells_from(a.cursor, text_cells(text)))
                    &&& forall|j: int| 0 <= j < text.len() ==> b.memory.contains_key((a.cursor + j) as u64)
                        && #[trigger] b.memory[(a.cursor + j) as u64] == Placement::Char(text[j])
                },
                Err(e) => e is DuplicateLabel || (e is AddressOverflow && a.cursor + text.len()
                    > u64::MAX),
            }
        }),
{
    let a = layout_prefix(program, i)->Ok_0;
    lemma_bind_effect(a, names_view(program[i as int].symbols@));
}

/// An `addr N` line moves the current address to exactly `N`, wherever it
/// was, and places nothing.
pub proof fn law_addr_line(program: Seq<Line>, i: nat, n: u64)
    requires
        i < program.len(),
        layout_prefix(program, i) is Ok,
        program[i as int].content matches Some(LineContent::Directive { directive, argument })
            && directive_kind(directive@) == DirectiveKind::Addr && const_value(argument@) == Some(n),
    ensures
        ({
            let a = layout_prefix(program, i)->Ok_0;
            match layout_prefix(program, i + 1) {
                Ok(b) => b.cursor == n && b.memory == a.memory,
                Err(e) => e is DuplicateLabel,
            }
        }),
{
    let a = layout_prefix(program, i)->Ok_0;
    lemma_bind_effect(a, names_view(program[i as int].symbols@));
}

/// When no name of the lines so far repeats, the labels of line `i` bind, and
/// what follows depends on its content alone.
proof fn lemma_line_binds(program: Seq<Line>, i: nat)
    requires
        i < program.len(),
        layout_prefix(program, i) is Ok,
        program_names(program, i + 1).no_duplicates(),
    ensures
        ({
            let a = layout_prefix(program, i)->Ok_0;
            let line = program[i as int];
            match bind_labels(a, names_view(line.symbols@)) {
                Ok(t) => t.cursor == a.cursor && t.memory == a.memory && layout_prefix(program, i + 1)
                    == match line.content {
                    None => Ok(t),
                    Some(c) => apply_content(t, c, i as usize),
                },
                Err(_) => false,
            }
        }),
{
    let a = layout_prefix(program, i)->Ok_0;
    let names = names_view(program[i as int].symbols@);
    let before = program_names(program, i);
    lemma_prefix_labels(program, i);
    lemma_no_duplicates_parts(before, names);
    assert forall|k: int| 0 <= k < names.len() implies !has_label(a.labels, #[trigger] names[k]) by {
        if has_label(a.labels, names[k]) {
            let j = choose|j: int| 0 <= j < a.labels.len() && (#[trigger] a.labels[j]).0 == names[k];
            assert(before[j] == names[k]);
        }
    }
    lemma_bind_effect(a, names);
}

/// A label name that occurs twice anywhere in the program makes the pass
/// fail, so no layout is produced; and a duplicate-label failure names a label
/// that occurs at least twice.
pub proof fn law_duplicate_label(program: Seq<Line>)
    ensures
        !labels_unique(program) ==> layout_of(program) is Err,
        layout_of(program) matches Err(LayoutFailure::DuplicateLabel(x)) ==> occurs_twice(
            program_names(program, program.len()),
            x,
        ),
{
    lemma_prefix_labels(program, program.len());
}

/// A directive whose name is not `word`, `space`, `addr` or `string` makes the
/// pass fail with an error naming that directive, once the lines before it are
/// laid out and its labels are new.
pub proof fn law_unsupported_directive(program: Seq<Line>, i: nat, name: Seq<char>)
    requires
        i < program.len(),
        layout_prefix(program, i) is Ok,
        program_names(program, i + 1).no_duplicates(),
        program[i as int].content matches Some(LineContent::Directive { directive, .. })
            && directive@ == name,
        directive_kind(name) == DirectiveKind::Unsupported,
    ensures
        layout_of(program) == Err::<LayoutModel, LayoutFailure>(
            LayoutFailure::UnsupportedDirective(name),
        ),
{
    lemma_line_binds(program, i);
    lemma_layout_failure_persists(program, i + 1, program.len());
}

/// The argument of a `space` or `addr` directive that is not a constant
/// expression as a whole, or of a `string` directive that is not a string
/// literal as a whole, makes the pass fail with an argument error, once the
/// lines before it are laid out and its labels are new.
pub proof fn law_bad_argument(program: Seq<Line>, i: nat, arg: Seq<char>)
    requires
        i < program.len(),
        layout_prefix(program, i) is Ok,
        program_names(program, i + 1).no_duplicates(),
        program[i as int].content matches Some(LineContent::Directive { directive, argument })
            && argument@ == arg && ({
            let kind = directive_kind(directive@);
            ||| (kind == DirectiveKind::Space || kind == DirectiveKind::Addr) && const_value(arg) is None
            ||| kind == DirectiveKind::Str && string_value(arg) is None
        }),
    ensures
        layout_of(program) == Err::<LayoutModel, LayoutFailure>(LayoutFailure::ArgumentParseError(arg)),
{
    lemma_line_binds(program, i);
    lemma_layout_failure_persists(program, i + 1, program.len());
}

} // verus!
