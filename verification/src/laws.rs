//! Library-wide laws of the decoder and the renderer, stated and proved over
//! the same spec functions that the executable functions' contracts use.

use vstd::prelude::*;

use crate::typewriter::Cell;
use crate::typewriter::bridged_cell;
use crate::typewriter::close_all;
use crate::typewriter::close_down_to;
use crate::typewriter::close_tag;
use crate::typewriter::decode_step;
use crate::typewriter::emit_cell;
use crate::typewriter::emitted_through;
use crate::typewriter::escape_char;
use crate::typewriter::is_ctrl;
use crate::typewriter::open_tag;
use crate::typewriter::render;
use crate::typewriter::render_line;
use crate::typewriter::rendered_through;
use crate::typewriter::stack_at;
use crate::typewriter::tag_chars;
use crate::typewriter::terminator;

verus! {

/// How many times the character `c` occurs in `s`.
pub open spec fn count_char(s: Seq<char>, c: char) -> nat
    decreases s.len(),
{
    if s.len() == 0 {
        0nat
    } else {
        count_char(s.drop_last(), c) + if s.last() == c {
            1nat
        } else {
            0nat
        }
    }
}

pub proof fn lemma_count_char_add(a: Seq<char>, b: Seq<char>, c: char)
    ensures
        count_char(a + b, c) == count_char(a, c) + count_char(b, c),
    decreases b.len(),
{
    if b.len() == 0 {
        assert(a + b =~= a);
    } else {
        assert((a + b).drop_last() =~= a + b.drop_last());
        assert((a + b).last() == b.last());
        lemma_count_char_add(a, b.drop_last(), c);
    }
}

pub proof fn lemma_count_char_none(s: Seq<char>, c: char)
    requires
        forall|j: int| 0 <= j < s.len() ==> s[j] != c,
    ensures
        count_char(s, c) == 0,
    decreases s.len(),
{
    if s.len() > 0 {
        lemma_count_char_none(s.drop_last(), c);
    }
}

/// Escaping: exactly `<`, `>` and `&` are replaced by their named entities;
/// every other character, underscore and quotes included, passes through
/// unchanged.
pub proof fn lemma_escaping(c: char)
    ensures
        c == '<' ==> escape_char(c) == seq!['&', 'l', 't', ';'],
        c == '>' ==> escape_char(c) == seq!['&', 'g', 't', ';'],
        c == '&' ==> escape_char(c) == seq!['&', 'a', 'm', 'p', ';'],
        c != '<' && c != '>' && c != '&' ==> escape_char(c) == seq![c],
{
}

/// No closing tag contains a line feed, so neither does the text of a
/// whole closing pass.
proof fn lemma_close_down_no_nl(stk: Seq<char>, t: char)
    requires
        tag_chars(stk),
        t == 'b' || t == 'u',
    ensures
        count_char(close_down_to(stk, t).1, '\n') == 0,
    decreases stk.len(),
{
    if stk.contains(t) {
        let top = stk.last();
        assert(top == 'b' || top == 'u');
        lemma_count_char_none(close_tag(top), '\n');
        if top != t {
            assert(tag_chars(stk.drop_last()));
            lemma_close_down_no_nl(stk.drop_last(), t);
            lemma_count_char_add(close_tag(top), close_down_to(stk.drop_last(), t).1, '\n');
        }
    }
}

/// The closing pass never puts a new character on the stack: what remains
/// was there before.
proof fn lemma_close_down_tag_chars(stk: Seq<char>, t: char)
    requires
        tag_chars(stk),
    ensures
        tag_chars(close_down_to(stk, t).0),
    decreases stk.len(),
{
    if stk.contains(t) {
        assert(tag_chars(stk.drop_last()));
        if stk.last() != t {
            lemma_close_down_tag_chars(stk.drop_last(), t);
        }
    }
}

/// Rendering one cell emits no line feed, and keeps the stack made of tag
/// letters.
proof fn lemma_emit_cell_no_nl(stk: Seq<char>, cell: Cell)
    requires
        tag_chars(stk),
        cell.c != '\n',
    ensures
        count_char(emit_cell(stk, cell).1, '\n') == 0,
        tag_chars(emit_cell(stk, cell).0),
{
    let s1 = if !cell.b {
        close_down_to(stk, 'b')
    } else {
        (stk, Seq::<char>::empty())
    };
    if !cell.b {
        lemma_close_down_no_nl(stk, 'b');
        lemma_close_down_tag_chars(stk, 'b');
    } else {
        lemma_count_char_none(s1.1, '\n');
    }
    let s2 = if !cell.u {
        close_down_to(s1.0, 'u')
    } else {
        (s1.0, Seq::<char>::empty())
    };
    if !cell.u {
        lemma_close_down_no_nl(s1.0, 'u');
        lemma_close_down_tag_chars(s1.0, 'u');
    } else {
        lemma_count_char_none(s2.1, '\n');
    }
    let s3 = if cell.b && !s2.0.contains('b') {
        (s2.0.push('b'), open_tag('b'))
    } else {
        (s2.0, Seq::<char>::empty())
    };
    lemma_count_char_none(s3.1, '\n');
    let s4 = if cell.u && !s3.0.contains('u') {
        (s3.0.push('u'), open_tag('u'))
    } else {
        (s3.0, Seq::<char>::empty())
    };
    lemma_count_char_none(s4.1, '\n');
    lemma_count_char_none(escape_char(cell.c), '\n');
    lemma_count_char_add(s1.1, s2.1, '\n');
    lemma_count_char_add(s1.1 + s2.1, s3.1, '\n');
    lemma_count_char_add(s1.1 + s2.1 + s3.1, s4.1, '\n');
    lemma_count_char_add(s1.1 + s2.1 + s3.1 + s4.1, escape_char(cell.c), '\n');
    assert(tag_chars(emit_cell(stk, cell).0));
}

/// Rendering one cell keeps the stack made of tag letters.
proof fn lemma_emit_cell_tag_chars(stk: Seq<char>, cell: Cell)
    requires
        tag_chars(stk),
    ensures
        tag_chars(emit_cell(stk, cell).0),
{
    lemma_close_down_tag_chars(stk, 'b');
    lemma_close_down_tag_chars(close_down_to(stk, 'b').0, 'u');
    lemma_close_down_tag_chars(stk, 'u');
}

/// The render stack holds nothing but tag letters, whatever the line.
proof fn lemma_stack_at_tag_chars(line: Seq<Cell>, i: int)
    ensures
        tag_chars(stack_at(line, i)),
    decreases i,
{
    if i > 0 {
        lemma_stack_at_tag_chars(line, i - 1);
        lemma_emit_cell_tag_chars(stack_at(line, i - 1), bridged_cell(line, i - 1));
    }
}

/// The per-cell output of a line contains no line feed.
proof fn lemma_emitted_through_no_nl(line: Seq<Cell>, i: int)
    requires
        0 <= i <= line.len(),
        forall|j: int| 0 <= j < line.len() ==> #[trigger] line[j].c != '\n',
    ensures
        count_char(emitted_through(line, i), '\n') == 0,
    decreases i,
{
    if i > 0 {
        lemma_emitted_through_no_nl(line, i - 1);
        lemma_stack_at_tag_chars(line, i - 1);
        assert(bridged_cell(line, i - 1).c == line[i - 1].c);
        lemma_emit_cell_no_nl(stack_at(line, i - 1), bridged_cell(line, i - 1));
        lemma_count_char_add(
            emitted_through(line, i - 1),
            emit_cell(stack_at(line, i - 1), bridged_cell(line, i - 1)).1,
            '\n',
        );
    }
}

/// The closing tags at line end contain no line feed.
proof fn lemma_close_all_no_nl(stk: Seq<char>)
    requires
        tag_chars(stk),
    ensures
        count_char(close_all(stk), '\n') == 0,
    decreases stk.len(),
{
    if stk.len() > 0 {
        assert(stk.last() == 'b' || stk.last() == 'u');
        lemma_count_char_none(close_tag(stk.last()), '\n');
        assert(tag_chars(stk.drop_last()));
        lemma_close_all_no_nl(stk.drop_last());
        lemma_count_char_add(close_tag(stk.last()), close_all(stk.drop_last()), '\n');
    }
}

/// The line terminator contains exactly one line feed, with or without the
/// `<br>` marker.
proof fn lemma_terminator_one_nl(include_br: bool)
    ensures
        count_char(terminator(include_br), '\n') == 1,
{
    assert(count_char(Seq::<char>::empty(), '\n') == 0);
    assert(seq!['\n'].drop_last() =~= Seq::<char>::empty());
    assert(count_char(seq!['\n'], '\n') == 1);
    if include_br {
        assert(terminator(true) =~= seq!['<', 'b', 'r', '>'] + seq!['\n']);
        lemma_count_char_none(seq!['<', 'b', 'r', '>'], '\n');
        lemma_count_char_add(seq!['<', 'b', 'r', '>'], seq!['\n'], '\n');
    }
}

/// One rendered line holds exactly one line feed when no stored cell
/// holds one.
proof fn lemma_render_line_one_nl(line: Seq<Cell>, include_br: bool)
    requires
        forall|j: int| 0 <= j < line.len() ==> #[trigger] line[j].c != '\n',
    ensures
        count_char(render_line(line, include_br), '\n') == 1,
{
    let n = line.len() as int;
    lemma_emitted_through_no_nl(line, n);
    lemma_stack_at_tag_chars(line, n);
    lemma_close_all_no_nl(stack_at(line, n));
    lemma_terminator_one_nl(include_br);
    lemma_count_char_add(emitted_through(line, n), close_all(stack_at(line, n)), '\n');
    lemma_count_char_add(
        emitted_through(line, n) + close_all(stack_at(line, n)),
        terminator(include_br),
        '\n',
    );
}

/// No stored cell of any line holds a line feed.
pub open spec fn no_nl_cells(lines: Seq<Seq<Cell>>) -> bool {
    forall|i: int, j: int|
        0 <= i < lines.len() && 0 <= j < lines[i].len() ==> #[trigger] lines[i][j].c != '\n'
}

/// The rendering of a document holds exactly one line feed per line.
pub proof fn lemma_render_nl_count(lines: Seq<Seq<Cell>>, include_br: bool)
    requires
        no_nl_cells(lines),
    ensures
        count_char(render(lines, include_br), '\n') == lines.len(),
{
    lemma_rendered_through_nl_count(lines, include_br, lines.len() as int);
}

proof fn lemma_rendered_through_nl_count(lines: Seq<Seq<Cell>>, include_br: bool, k: int)
    requires
        no_nl_cells(lines),
        0 <= k <= lines.len(),
    ensures
        count_char(rendered_through(lines, include_br, k), '\n') == k,
    decreases k,
{
    if k > 0 {
        lemma_rendered_through_nl_count(lines, include_br, k - 1);
        assert(forall|j: int| 0 <= j < lines[k - 1].len() ==> #[trigger] lines[k - 1][j].c != '\n');
        lemma_render_line_one_nl(lines[k - 1], include_br);
        lemma_count_char_add(
            rendered_through(lines, include_br, k - 1),
            render_line(lines[k - 1], include_br),
            '\n',
        );
    }
}

/// The document reached by feeding every character of `cs`, in order, to a
/// freshly created decoder.
pub open spec fn decode_all(cs: Seq<char>) -> (Seq<Seq<Cell>>, int)
    decreases cs.len(),
{
    if cs.len() == 0 {
        (seq![Seq::<Cell>::empty()], 0)
    } else {
        let p = decode_all(cs.drop_last());
        decode_step(p.0, p.1, cs.last())
    }
}

/// No stored cell of any decoded line holds a control character.
pub open spec fn printable_cells(lines: Seq<Seq<Cell>>) -> bool {
    forall|i: int, j: int|
        0 <= i < lines.len() && 0 <= j < lines[i].len() ==> !is_ctrl(#[trigger] lines[i][j].c)
}

/// One decoder step adds a line exactly when the character is a line feed,
/// and stores no control character.
proof fn lemma_decode_step_lines(lines: Seq<Seq<Cell>>, col: int, c: char)
    requires
        lines.len() >= 1,
        0 <= col,
        printable_cells(lines),
    ensures
        decode_step(lines, col, c).0.len() == lines.len() + if c == '\n' {
            1int
        } else {
            0int
        },
        0 <= decode_step(lines, col, c).1,
        printable_cells(decode_step(lines, col, c).0),
{
    let out = decode_step(lines, col, c).0;
    if c == '\u{8}' || c == '\r' || (c != '\n' && is_ctrl(c)) {
    } else if c == '\n' {
        assert forall|i: int, j: int| 0 <= i < out.len() && 0 <= j < out[i].len() implies !is_ctrl(
            #[trigger] out[i][j].c,
        ) by {
            if i < lines.len() {
                assert(out[i] == lines[i]);
            } else {
                assert(out[i].len() == 0);
            }
        }
    } else {
        let li = lines.len() - 1;
        let line = lines[li];
        assert forall|i: int, j: int| 0 <= i < out.len() && 0 <= j < out[i].len() implies !is_ctrl(
            #[trigger] out[i][j].c,
        ) by {
            if i != li {
                assert(out[i] == lines[i]);
            } else if col < line.len() {
                assert(out[li] == line.update(col, crate::typewriter::combine(line[col], c)));
                if j != col {
                    assert(out[li][j] == line[j]);
                } else {
                    assert(!is_ctrl(line[col].c));
                    assert(!is_ctrl(c));
                    assert(out[li][j].c == c || out[li][j].c == line[col].c);
                }
            } else {
                assert(out[li] == line.push(Cell { c: c, b: false, u: false }));
                if j < line.len() {
                    assert(out[li][j] == line[j]);
                } else {
                    assert(out[li][j].c == c);
                    assert(!is_ctrl(c));
                }
            }
        }
    }
}

/// The decoded document always has one line more than the line feeds fed
/// in, and never stores a control character.
pub proof fn lemma_decode_all_lines(cs: Seq<char>)
    ensures
        decode_all(cs).0.len() == 1 + count_char(cs, '\n'),
        0 <= decode_all(cs).1,
        printable_cells(decode_all(cs).0),
    decreases cs.len(),
{
    if cs.len() == 0 {
    } else {
        lemma_decode_all_lines(cs.drop_last());
        lemma_decode_step_lines(decode_all(cs.drop_last()).0, decode_all(cs.drop_last()).1, cs.last());
    }
}

/// For every input stream, the number of rendered output lines — one per
/// line feed in the rendering, which ends each line with exactly one —
/// equals the number of line feeds in the input plus one.
pub proof fn lemma_output_line_count(cs: Seq<char>, include_br: bool)
    ensures
        count_char(render(decode_all(cs).0, include_br), '\n') == count_char(cs, '\n') + 1,
{
    lemma_decode_all_lines(cs);
    let lines = decode_all(cs).0;
    assert forall|i: int, j: int|
        0 <= i < lines.len() && 0 <= j < lines[i].len() implies #[trigger] lines[i][j].c
        != '\n' by {
        assert(!is_ctrl(lines[i][j].c));
    }
    lemma_render_nl_count(lines, include_br);
}

/// The line as the renderer sees it: every cell replaced by its bridged
/// form.
pub open spec fn bridged_line(line: Seq<Cell>) -> Seq<Cell> {
    Seq::new(line.len(), |i: int| bridged_cell(line, i))
}

/// Space bridging is idempotent cell by cell: bridging a line that has
/// already been bridged changes no cell.
pub proof fn lemma_bridging_idempotent(line: Seq<Cell>, i: int)
    requires
        0 <= i < line.len(),
    ensures
        bridged_cell(bridged_line(line), i) == bridged_line(line)[i],
{
}

proof fn lemma_render_prefix_bridged(line: Seq<Cell>, i: int)
    requires
        0 <= i <= line.len(),
    ensures
        stack_at(bridged_line(line), i) == stack_at(line, i),
        emitted_through(bridged_line(line), i) == emitted_through(line, i),
    decreases i,
{
    if i > 0 {
        lemma_render_prefix_bridged(line, i - 1);
        lemma_bridging_idempotent(line, i - 1);
        assert(bridged_cell(bridged_line(line), i - 1) == bridged_cell(line, i - 1));
    }
}

/// Rendering is idempotent with respect to the space-bridging heuristic:
/// a line whose cells have already been bridged renders to exactly the
/// same text as the stored line.
pub proof fn lemma_render_line_bridged(line: Seq<Cell>, include_br: bool)
    ensures
        render_line(bridged_line(line), include_br) == render_line(line, include_br),
{
    lemma_render_prefix_bridged(line, line.len() as int);
}

proof fn lemma_rendered_through_bridged(lines: Seq<Seq<Cell>>, include_br: bool, k: int)
    requires
        0 <= k <= lines.len(),
    ensures
        rendered_through(lines.map_values(|l: Seq<Cell>| bridged_line(l)), include_br, k)
            == rendered_through(lines, include_br, k),
    decreases k,
{
    if k > 0 {
        lemma_rendered_through_bridged(lines, include_br, k - 1);
        lemma_render_line_bridged(lines[k - 1], include_br);
    }
}

/// Document-level form of the same law: bridging every line of a document
/// and rendering it again yields byte-identical output.
pub proof fn lemma_render_bridged(lines: Seq<Seq<Cell>>, include_br: bool)
    ensures
        render(lines.map_values(|l: Seq<Cell>| bridged_line(l)), include_br) == render(
            lines,
            include_br,
        ),
{
    lemma_rendered_through_bridged(lines, include_br, lines.len() as int);
}

/// The number of closing tags `</t>` in the text of one closing pass,
/// `close_down_to(stk, target)`: one per entry popped.
pub open spec fn closes_in_close_down(stk: Seq<char>, target: char, t: char) -> nat
    decreases stk.len(),
{
    if !stk.contains(target) {
        0nat
    } else {
        let top = stk.last();
        (if top == t {
            1nat
        } else {
            0nat
        }) + if top == target {
            0nat
        } else {
            closes_in_close_down(stk.drop_last(), target, t)
        }
    }
}

/// The `t`-closes a closing pass emits are exactly the `t` entries that
/// leave the stack.
proof fn lemma_closes_in_close_down(stk: Seq<char>, target: char, t: char)
    ensures
        closes_in_close_down(stk, target, t) + count_char(close_down_to(stk, target).0, t)
            == count_char(stk, t),
    decreases stk.len(),
{
    if stk.contains(target) {
        if stk.last() != target {
            lemma_closes_in_close_down(stk.drop_last(), target, t);
        }
    }
}

/// The number of closing tags `</t>` emitted while rendering one cell.
pub open spec fn closes_cell(stk: Seq<char>, cell: Cell, t: char) -> nat {
    let cb: nat = if !cell.b {
        closes_in_close_down(stk, 'b', t)
    } else {
        0nat
    };
    let s1 = if !cell.b {
        close_down_to(stk, 'b')
    } else {
        (stk, Seq::<char>::empty())
    };
    let cu: nat = if !cell.u {
        closes_in_close_down(s1.0, 'u', t)
    } else {
        0nat
    };
    cb + cu
}

/// The number of opening tags `<t>` emitted while rendering one cell.
pub open spec fn opens_cell(stk: Seq<char>, cell: Cell, t: char) -> nat {
    let s1 = if !cell.b {
        close_down_to(stk, 'b')
    } else {
        (stk, Seq::<char>::empty())
    };
    let s2 = if !cell.u {
        close_down_to(s1.0, 'u')
    } else {
        (s1.0, Seq::<char>::empty())
    };
    let ob: nat = if cell.b && !s2.0.contains('b') {
        1nat
    } else {
        0nat
    };
    let s3 = if cell.b && !s2.0.contains('b') {
        s2.0.push('b')
    } else {
        s2.0
    };
    let ou: nat = if cell.u && !s3.contains('u') {
        1nat
    } else {
        0nat
    };
    if t == 'b' {
        ob
    } else if t == 'u' {
        ou
    } else {
        0nat
    }
}

/// Rendering one cell opens and closes tags in step with the stack: the
/// opens minus the closes equal the change in the stack's `t` count.
proof fn lemma_emit_cell_balance(stk: Seq<char>, cell: Cell, t: char)
    requires
        t == 'b' || t == 'u',
    ensures
        count_char(stk, t) + opens_cell(stk, cell, t) == count_char(emit_cell(stk, cell).0, t)
            + closes_cell(stk, cell, t),
{
    let s1 = if !cell.b {
        close_down_to(stk, 'b')
    } else {
        (stk, Seq::<char>::empty())
    };
    let s2 = if !cell.u {
        close_down_to(s1.0, 'u')
    } else {
        (s1.0, Seq::<char>::empty())
    };
    if !cell.b {
        lemma_closes_in_close_down(stk, 'b', t);
    }
    if !cell.u {
        lemma_closes_in_close_down(s1.0, 'u', t);
    }
    let s3 = if cell.b && !s2.0.contains('b') {
        s2.0.push('b')
    } else {
        s2.0
    };
    let s4 = if cell.u && !s3.contains('u') {
        s3.push('u')
    } else {
        s3
    };
    if cell.b && !s2.0.contains('b') {
        assert(s2.0.push('b').drop_last() =~= s2.0);
        assert(count_char(s3, t) == count_char(s2.0, t) + if t == 'b' {
            1nat
        } else {
            0nat
        });
    }
    if cell.u && !s3.contains('u') {
        assert(s3.push('u').drop_last() =~= s3);
        assert(count_char(s4, t) == count_char(s3, t) + if t == 'u' {
            1nat
        } else {
            0nat
        });
    }
    assert(emit_cell(stk, cell).0 == s4);
}

/// Opening tags `<t>` emitted across the first `i` cells of a line.
pub open spec fn opens_through(line: Seq<Cell>, i: int, t: char) -> nat
    decreases i,
{
    if i <= 0 {
        0nat
    } else {
        opens_through(line, i - 1, t) + opens_cell(
            stack_at(line, i - 1),
            bridged_cell(line, i - 1),
            t,
        )
    }
}

/// Closing tags `</t>` emitted across the first `i` cells of a line.
pub open spec fn closes_through(line: Seq<Cell>, i: int, t: char) -> nat
    decreases i,
{
    if i <= 0 {
        0nat
    } else {
        closes_through(line, i - 1, t) + closes_cell(
            stack_at(line, i - 1),
            bridged_cell(line, i - 1),
            t,
        )
    }
}

/// The number of closing tags `</t>` in the end-of-line pass that empties
/// the stack: one per remaining `t` entry.
pub open spec fn closes_in_close_all(stk: Seq<char>, t: char) -> nat
    decreases stk.len(),
{
    if stk.len() == 0 {
        0nat
    } else {
        (if stk.last() == t {
            1nat
        } else {
            0nat
        }) + closes_in_close_all(stk.drop_last(), t)
    }
}

proof fn lemma_close_all_counts(stk: Seq<char>, t: char)
    ensures
        closes_in_close_all(stk, t) == count_char(stk, t),
    decreases stk.len(),
{
    if stk.len() > 0 {
        lemma_close_all_counts(stk.drop_last(), t);
    }
}

proof fn lemma_balance_prefix(line: Seq<Cell>, i: int, t: char)
    requires
        0 <= i <= line.len(),
        t == 'b' || t == 'u',
    ensures
        opens_through(line, i, t) == closes_through(line, i, t) + count_char(stack_at(line, i), t),
    decreases i,
{
    if i > 0 {
        lemma_balance_prefix(line, i - 1, t);
        lemma_emit_cell_balance(stack_at(line, i - 1), bridged_cell(line, i - 1), t);
    }
}

proof fn lemma_count_char_zero_iff(s: Seq<char>, c: char)
    ensures
        (count_char(s, c) == 0) <==> !s.contains(c),
    decreases s.len(),
{
    if s.len() > 0 {
        lemma_count_char_zero_iff(s.drop_last(), c);
        if s.contains(c) && s.last() != c {
            let k = choose|k: int| 0 <= k < s.len() && s[k] == c;
            assert(s.drop_last()[k] == c);
            assert(s.drop_last().contains(c));
        }
        if s.drop_last().contains(c) {
            let k = choose|k: int| 0 <= k < s.drop_last().len() && s.drop_last()[k] == c;
            assert(s[k] == c);
        }
    }
}

proof fn lemma_emit_cell_at_most_one(stk: Seq<char>, cell: Cell, t: char)
    requires
        t == 'b' || t == 'u',
        count_char(stk, t) <= 1,
    ensures
        count_char(emit_cell(stk, cell).0, t) <= 1,
{
    let s1 = if !cell.b {
        close_down_to(stk, 'b')
    } else {
        (stk, Seq::<char>::empty())
    };
    let s2 = if !cell.u {
        close_down_to(s1.0, 'u')
    } else {
        (s1.0, Seq::<char>::empty())
    };
    if !cell.b {
        lemma_closes_in_close_down(stk, 'b', t);
    }
    if !cell.u {
        lemma_closes_in_close_down(s1.0, 'u', t);
    }
    let s3 = if cell.b && !s2.0.contains('b') {
        s2.0.push('b')
    } else {
        s2.0
    };
    let s4 = if cell.u && !s3.contains('u') {
        s3.push('u')
    } else {
        s3
    };
    if cell.b && !s2.0.contains('b') {
        lemma_count_char_zero_iff(s2.0, 'b');
        assert(s2.0.push('b').drop_last() =~= s2.0);
        assert(count_char(s3, t) == count_char(s2.0, t) + if t == 'b' {
            1nat
        } else {
            0nat
        });
    }
    if cell.u && !s3.contains('u') {
        lemma_count_char_zero_iff(s3, 'u');
        assert(s3.push('u').drop_last() =~= s3);
        assert(count_char(s4, t) == count_char(s3, t) + if t == 'u' {
            1nat
        } else {
            0nat
        });
    }
    assert(emit_cell(stk, cell).0 == s4);
}

/// The render stack never holds more than one entry per attribute kind.
pub proof fn lemma_stack_at_most_one(line: Seq<Cell>, i: int, t: char)
    requires
        t == 'b' || t == 'u',
    ensures
        count_char(stack_at(line, i), t) <= 1,
    decreases i,
{
    if i > 0 {
        lemma_stack_at_most_one(line, i - 1, t);
        lemma_emit_cell_at_most_one(stack_at(line, i - 1), bridged_cell(line, i - 1), t);
    }
}

proof fn lemma_count_angle_tag(t: char)
    requires
        t != '<',
    ensures
        count_char(open_tag(t), '<') == 1,
        count_char(close_tag(t), '<') == 1,
{
    assert(count_char(Seq::<char>::empty(), '<') == 0);
    assert(seq!['<'].drop_last() =~= Seq::<char>::empty());
    assert(count_char(seq!['<'], '<') == 1);
    assert(open_tag(t) =~= seq!['<'] + seq![t, '>']);
    lemma_count_char_none(seq![t, '>'], '<');
    lemma_count_char_add(seq!['<'], seq![t, '>'], '<');
    assert(close_tag(t) =~= seq!['<'] + seq!['/', t, '>']);
    lemma_count_char_none(seq!['/', t, '>'], '<');
    lemma_count_char_add(seq!['<'], seq!['/', t, '>'], '<');
}

proof fn lemma_close_down_angle(stk: Seq<char>, target: char)
    requires
        tag_chars(stk),
        target == 'b' || target == 'u',
    ensures
        count_char(close_down_to(stk, target).1, '<') == closes_in_close_down(stk, target, 'b')
            + closes_in_close_down(stk, target, 'u'),
    decreases stk.len(),
{
    if stk.contains(target) {
        let top = stk.last();
        assert(top == 'b' || top == 'u');
        lemma_count_angle_tag(top);
        if top != target {
            assert(tag_chars(stk.drop_last()));
            lemma_close_down_angle(stk.drop_last(), target);
            lemma_count_char_add(close_tag(top), close_down_to(stk.drop_last(), target).1, '<');
        }
    }
}

proof fn lemma_emit_cell_angle(stk: Seq<char>, cell: Cell)
    requires
        tag_chars(stk),
    ensures
        count_char(emit_cell(stk, cell).1, '<') == opens_cell(stk, cell, 'b') + opens_cell(
            stk,
            cell,
            'u',
        ) + closes_cell(stk, cell, 'b') + closes_cell(stk, cell, 'u'),
{
    let s1 = if !cell.b {
        close_down_to(stk, 'b')
    } else {
        (stk, Seq::<char>::empty())
    };
    if !cell.b {
        lemma_close_down_angle(stk, 'b');
        lemma_close_down_tag_chars(stk, 'b');
    } else {
        lemma_count_char_none(s1.1, '<');
    }
    let s2 = if !cell.u {
        close_down_to(s1.0, 'u')
    } else {
        (s1.0, Seq::<char>::empty())
    };
    if !cell.u {
        lemma_close_down_angle(s1.0, 'u');
    } else {
        lemma_count_char_none(s2.1, '<');
    }
    let s3 = if cell.b && !s2.0.contains('b') {
        (s2.0.push('b'), open_tag('b'))
    } else {
        (s2.0, Seq::<char>::empty())
    };
    if cell.b && !s2.0.contains('b') {
        lemma_count_angle_tag('b');
    } else {
        lemma_count_char_none(s3.1, '<');
    }
    let s4 = if cell.u && !s3.0.contains('u') {
        (s3.0.push('u'), open_tag('u'))
    } else {
        (s3.0, Seq::<char>::empty())
    };
    if cell.u && !s3.0.contains('u') {
        lemma_count_angle_tag('u');
    } else {
        lemma_count_char_none(s4.1, '<');
    }
    lemma_count_char_none(escape_char(cell.c), '<');
    lemma_count_char_add(s1.1, s2.1, '<');
    lemma_count_char_add(s1.1 + s2.1, s3.1, '<');
    lemma_count_char_add(s1.1 + s2.1 + s3.1, s4.1, '<');
    lemma_count_char_add(s1.1 + s2.1 + s3.1 + s4.1, escape_char(cell.c), '<');
}

proof fn lemma_close_all_angle(stk: Seq<char>)
    requires
        tag_chars(stk),
    ensures
        count_char(close_all(stk), '<') == closes_in_close_all(stk, 'b') + closes_in_close_all(
            stk,
            'u',
        ),
    decreases stk.len(),
{
    if stk.len() > 0 {
        assert(stk.last() == 'b' || stk.last() == 'u');
        lemma_count_angle_tag(stk.last());
        assert(tag_chars(stk.drop_last()));
        lemma_close_all_angle(stk.drop_last());
        lemma_count_char_add(close_tag(stk.last()), close_all(stk.drop_last()), '<');
    }
}

proof fn lemma_emitted_through_angle(line: Seq<Cell>, i: int)
    requires
        0 <= i <= line.len(),
    ensures
        count_char(emitted_through(line, i), '<') == opens_through(line, i, 'b') + opens_through(
            line,
            i,
            'u',
        ) + closes_through(line, i, 'b') + closes_through(line, i, 'u'),
    decreases i,
{
    if i > 0 {
        lemma_emitted_through_angle(line, i - 1);
        lemma_stack_at_tag_chars(line, i - 1);
        lemma_emit_cell_angle(stack_at(line, i - 1), bridged_cell(line, i - 1));
        lemma_count_char_add(
            emitted_through(line, i - 1),
            emit_cell(stack_at(line, i - 1), bridged_cell(line, i - 1)).1,
            '<',
        );
    }
}

/// Every `<` in a rendered line is one emitted tag — or the `<br>` marker:
/// escaping leaves no other source of `<`, so the text's `<` count is
/// exactly the number of opening and closing tags the line emits.
pub proof fn lemma_angle_brackets_are_tags(line: Seq<Cell>, include_br: bool)
    ensures
        count_char(render_line(line, include_br), '<') == opens_through(line, line.len() as int, 'b')
            + opens_through(line, line.len() as int, 'u') + closes_through(
            line,
            line.len() as int,
            'b',
        ) + closes_through(line, line.len() as int, 'u') + closes_in_close_all(
            stack_at(line, line.len() as int),
            'b',
        ) + closes_in_close_all(stack_at(line, line.len() as int), 'u') + if include_br {
            1int
        } else {
            0int
        },
{
    let n = line.len() as int;
    lemma_emitted_through_angle(line, n);
    lemma_stack_at_tag_chars(line, n);
    lemma_close_all_angle(stack_at(line, n));
    if include_br {
        assert(terminator(true) =~= seq!['<'] + seq!['b', 'r', '>', '\n']);
        assert(count_char(Seq::<char>::empty(), '<') == 0);
        assert(seq!['<'].drop_last() =~= Seq::<char>::empty());
        assert(count_char(seq!['<'], '<') == 1);
        lemma_count_char_none(seq!['b', 'r', '>', '\n'], '<');
        lemma_count_char_add(seq!['<'], seq!['b', 'r', '>', '\n'], '<');
    } else {
        lemma_count_char_none(terminator(false), '<');
    }
    lemma_count_char_add(emitted_through(line, n), close_all(stack_at(line, n)), '<');
    lemma_count_char_add(
        emitted_through(line, n) + close_all(stack_at(line, n)),
        terminator(include_br),
        '<',
    );
}

/// Tag balance: across one rendered line, every opening tag emitted for an
/// attribute is matched by a closing tag emitted on the same line — the
/// opens among the cells equal the closes among the cells plus the closes
/// of the end-of-line pass, which leaves the stack empty — and no prefix
/// of the line ever closes a tag that was not opened before it.
pub proof fn lemma_tag_balance(line: Seq<Cell>, t: char)
    requires
        t == 'b' || t == 'u',
    ensures
        opens_through(line, line.len() as int, t) == closes_through(line, line.len() as int, t)
            + closes_in_close_all(stack_at(line, line.len() as int), t),
        forall|i: int|
            0 <= i <= line.len() ==> #[trigger] closes_through(line, i, t) <= opens_through(
                line,
                i,
                t,
            ),
{
    lemma_balance_prefix(line, line.len() as int, t);
    lemma_close_all_counts(stack_at(line, line.len() as int), t);
    assert forall|i: int|
        0 <= i <= line.len() implies #[trigger] closes_through(line, i, t) <= opens_through(
        line,
        i,
        t,
    ) by {
        lemma_balance_prefix(line, i, t);
    }
}

} // verus!
