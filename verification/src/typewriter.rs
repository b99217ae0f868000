//! The overtype engine: a decoder that turns a raw character stream into a
//! grid of styled cells, and a renderer that emits the grid as HTML with
//! well-nested `<b>`/`<u>` tags.

use vstd::prelude::*;

verus! {

/// One character position on one line: a displayable character plus
/// independent bold and underline flags.
#[derive(Clone, Copy, Debug, PartialEq, Eq, Structural)]
pub struct Cell {
    pub c: char,
    pub b: bool,
    pub u: bool,
}

/// Control characters: the Unicode `Cc` category, `U+0000..=U+001F` and
/// `U+007F..=U+009F`.
pub open spec fn is_ctrl(c: char) -> bool {
    (c as u32) < 0x20 || (0x7f <= (c as u32) && (c as u32) <= 0x9f)
}

/// The overtype combination rule: the cell that results from striking `c`
/// over an already-occupied cell.
pub open spec fn combine(cell: Cell, c: char) -> Cell {
    if c == '_' && cell.c != '_' {
        Cell { c: cell.c, b: cell.b, u: true }
    } else if c != '_' && cell.c == '_' {
        Cell { c: c, b: cell.b, u: true }
    } else if c == cell.c {
        Cell { c: cell.c, b: true, u: cell.u }
    } else {
        Cell { c: c, b: cell.b, u: cell.u }
    }
}

/// One step of the decoder state machine: the grid and cursor column after
/// feeding one character `c` to a document in state (`lines`, `col`).
pub open spec fn decode_step(lines: Seq<Seq<Cell>>, col: int, c: char) -> (Seq<Seq<Cell>>, int)
    recommends
        lines.len() >= 1,
{
    if c == '\u{8}' {
        (lines, if col > 0 { col - 1 } else { 0 as int })
    } else if c == '\n' {
        (lines.push(Seq::empty()), 0)
    } else if c == '\r' {
        (lines, 0)
    } else if is_ctrl(c) {
        (lines, col)
    } else {
        let li = lines.len() - 1;
        let line = lines[li];
        if col < line.len() {
            (lines.update(li, line.update(col, combine(line[col], c))), col + 1)
        } else {
            (lines.update(li, line.push(Cell { c: c, b: false, u: false })), col + 1)
        }
    }
}

/// Relies on `alloc::string::String::push`: appends the given character to
/// the end of the string.
pub assume_specification[ String::push ](s: &mut String, c: char)
    ensures
        final(s)@ == old(s)@.push(c),
;

/// The HTML escape of one character: exactly `<`, `>` and `&` become their
/// named entities; every other character passes through unchanged.
pub open spec fn escape_char(c: char) -> Seq<char> {
    if c == '<' {
        seq!['&', 'l', 't', ';']
    } else if c == '>' {
        seq!['&', 'g', 't', ';']
    } else if c == '&' {
        seq!['&', 'a', 'm', 'p', ';']
    } else {
        seq![c]
    }
}

/// The text of an opening tag `<t>`.
pub open spec fn open_tag(t: char) -> Seq<char> {
    seq!['<', t, '>']
}

/// The text of a closing tag `</t>`.
pub open spec fn close_tag(t: char) -> Seq<char> {
    seq!['<', '/', t, '>']
}

/// Every entry of a render stack is one of the two tag letters.
pub open spec fn tag_chars(stk: Seq<char>) -> bool {
    forall|j: int| 0 <= j < stk.len() ==> stk[j] == 'b' || stk[j] == 'u'
}

/// Pop and close tags from the top of the stack until tag `t` itself has
/// been popped and closed; tags nested above `t` are closed along the way.
/// Leaves the stack alone if `t` is not on it. Returns the new stack and
/// the emitted text.
pub open spec fn close_down_to(stk: Seq<char>, t: char) -> (Seq<char>, Seq<char>)
    decreases stk.len(),
{
    if !stk.contains(t) {
        (stk, Seq::<char>::empty())
    } else {
        let top = stk.last();
        let rest = stk.drop_last();
        if top == t {
            (rest, close_tag(top))
        } else {
            let r = close_down_to(rest, t);
            (r.0, close_tag(top) + r.1)
        }
    }
}

/// One cell's worth of output: close the attributes the cell does not
/// assert, open the ones it does (bold before underline), then emit the
/// escaped character. Returns the new stack and the emitted text.
pub open spec fn emit_cell(stk: Seq<char>, cell: Cell) -> (Seq<char>, Seq<char>) {
    let s1 = if !cell.b {
        close_down_to(stk, 'b')
    } else {
        (stk, Seq::<char>::empty())
    };
    let s2 = if !cell.u {
        close_down_to(s1.0, 'u')
    } else {
        (s1.0, Seq::<char>::empty())
    };
    let s3 = if cell.b && !s2.0.contains('b') {
        (s2.0.push('b'), open_tag('b'))
    } else {
        (s2.0, Seq::<char>::empty())
    };
    let s4 = if cell.u && !s3.0.contains('u') {
        (s3.0.push('u'), open_tag('u'))
    } else {
        (s3.0, Seq::<char>::empty())
    };
    (s4.0, s1.1 + s2.1 + s3.1 + s4.1 + escape_char(cell.c))
}

/// The cell actually rendered at position `i` of `line`: an isolated,
/// unstyled space whose two neighbours are both bold (with no underline in
/// sight) is rendered bold, and symmetrically for underline. The first and
/// last cell of a line are always rendered as stored.
pub open spec fn bridged_cell(line: Seq<Cell>, i: int) -> Cell
    recommends
        0 <= i < line.len(),
{
    let cur = line[i];
    if 0 < i && i + 1 < line.len() {
        let p = line[i - 1];
        let n = line[i + 1];
        if !p.u && !cur.u && !n.u && p.b && cur.c == ' ' && !cur.b && n.b {
            Cell { c: cur.c, b: true, u: cur.u }
        } else if !p.b && !cur.b && !n.b && p.u && cur.c == ' ' && !cur.u && n.u {
            Cell { c: cur.c, b: cur.b, u: true }
        } else {
            cur
        }
    } else {
        cur
    }
}

/// The tag stack after rendering the first `i` cells of `line`.
pub open spec fn stack_at(line: Seq<Cell>, i: int) -> Seq<char>
    decreases i,
{
    if i <= 0 {
        Seq::<char>::empty()
    } else {
        emit_cell(stack_at(line, i - 1), bridged_cell(line, i - 1)).0
    }
}

/// The text emitted for the first `i` cells of `line`.
pub open spec fn emitted_through(line: Seq<Cell>, i: int) -> Seq<char>
    decreases i,
{
    if i <= 0 {
        Seq::<char>::empty()
    } else {
        emitted_through(line, i - 1) + emit_cell(stack_at(line, i - 1), bridged_cell(line, i - 1)).1
    }
}

/// Closing tags for everything still on the stack, innermost (most
/// recently opened) first.
pub open spec fn close_all(stk: Seq<char>) -> Seq<char>
    decreases stk.len(),
{
    if stk.len() == 0 {
        Seq::<char>::empty()
    } else {
        close_tag(stk.last()) + close_all(stk.drop_last())
    }
}

/// The terminator appended after each rendered line.
pub open spec fn terminator(include_br: bool) -> Seq<char> {
    if include_br {
        seq!['<', 'b', 'r', '>', '\n']
    } else {
        seq!['\n']
    }
}

/// The rendering of one line: the per-cell output, the closing tags for
/// whatever is still open, then the line terminator.
pub open spec fn render_line(line: Seq<Cell>, include_br: bool) -> Seq<char> {
    emitted_through(line, line.len() as int) + close_all(stack_at(line, line.len() as int))
        + terminator(include_br)
}

/// The rendering of the first `k` lines of a document.
pub open spec fn rendered_through(lines: Seq<Seq<Cell>>, include_br: bool, k: int) -> Seq<char>
    decreases k,
{
    if k <= 0 {
        Seq::<char>::empty()
    } else {
        rendered_through(lines, include_br, k - 1) + render_line(lines[k - 1], include_br)
    }
}

/// The rendering of a whole document, one rendered line per input line.
pub open spec fn render(lines: Seq<Seq<Cell>>, include_br: bool) -> Seq<char> {
    rendered_through(lines, include_br, lines.len() as int)
}

/// The decoder: an ordered sequence of lines of cells and a cursor column.
/// The current line is always the last one.
#[derive(Debug)]
pub struct Typewriter {
    page: Vec<Vec<Cell>>,
    col: usize,
}

impl Typewriter {
    /// The grid of styled cells, one inner sequence per line.
    pub closed spec fn lines(&self) -> Seq<Seq<Cell>> {
        self.page@.map_values(|l: Vec<Cell>| l@)
    }

    /// The cursor's current column within the last line.
    pub closed spec fn cursor_col(&self) -> int {
        self.col as int
    }

    /// Well-formedness: there is always at least one line, the cursor never
    /// sits past the end of the last line, and no stored cell holds a
    /// control character.
    pub open spec fn wf(&self) -> bool {
        &&& self.lines().len() >= 1
        &&& 0 <= self.cursor_col() <= self.lines().last().len()
        &&& forall|i: int, j: int|
            0 <= i < self.lines().len() && 0 <= j < self.lines()[i].len() ==> !is_ctrl(
                #[trigger] self.lines()[i][j].c,
            )
    }

    /// A new document: one empty line, cursor at column zero.
    pub fn new() -> (t: Typewriter)
        ensures
            t.wf(),
            t.lines() =~= seq![Seq::<Cell>::empty()],
            t.cursor_col() == 0,
    {
        let mut page: Vec<Vec<Cell>> = Vec::new();
        page.push(Vec::new());
        let t = Typewriter { page, col: 0 };
        proof {
            assert(t.lines() =~= seq![Seq::<Cell>::empty()]);
        }
        t
    }

    /// Render the whole document as HTML: one output line per input line,
    /// with well-nested `<b>`/`<u>` tags, the three reserved characters
    /// escaped, and isolated unstyled spaces bridged into a surrounding
    /// styled run. The document itself is left unchanged.
    pub fn to_html(&mut self, include_br: bool) -> (r: String)
        ensures
            final(self).lines() == old(self).lines(),
            final(self).cursor_col() == old(self).cursor_col(),
            r@ == render(old(self).lines(), include_br),
    {
        let ghost lines = self.lines();
        let mut html = String::new();
        let mut li: usize = 0;
        while li < self.page.len()
            invariant
                0 <= li <= self.page@.len(),
                self.lines() == lines,
                self.cursor_col() == old(self).cursor_col(),
                lines.len() == self.page@.len(),
                html@ == rendered_through(lines, include_br, li as int),
            decreases self.page@.len() - li,
        {
            let line = &self.page[li];
            proof {
                assert(line@ == lines[li as int]);
            }
            let n = line.len();
            let mut stk: Vec<char> = Vec::new();
            let mut i: usize = 0;
            while i < n
                invariant
                    0 <= i <= n,
                    n == line@.len(),
                    tag_chars(stk@),
                    stk@ == stack_at(line@, i as int),
                    html@ == rendered_through(lines, include_br, li as int) + emitted_through(
                        line@,
                        i as int,
                    ),
                decreases n - i,
            {
                let cell: Cell = if i > 0 && i + 1 < n {
                    let p = line[i - 1];
                    let cur = line[i];
                    let nx = line[i + 1];
                    if !p.u && !cur.u && !nx.u && p.b && cur.c == ' ' && !cur.b && nx.b {
                        Cell { c: cur.c, b: true, u: cur.u }
                    } else if !p.b && !cur.b && !nx.b && p.u && cur.c == ' ' && !cur.u && nx.u {
                        Cell { c: cur.c, b: cur.b, u: true }
                    } else {
                        cur
                    }
                } else {
                    line[i]
                };
                proof {
                    assert(cell == bridged_cell(line@, i as int));
                }
                emit_cell_exec(&mut stk, &mut html, cell);
                i = i + 1;
                proof {
                    assert(stk@ == stack_at(line@, i as int));
                    assert(html@ =~= rendered_through(lines, include_br, li as int)
                        + emitted_through(line@, i as int));
                }
            }
            let ghost stk_full = stack_at(line@, n as int);
            let ghost body = rendered_through(lines, include_br, li as int) + emitted_through(
                line@,
                n as int,
            );
            while stk.len() > 0
                invariant
                    tag_chars(stk@),
                    html@ + close_all(stk@) == body + close_all(stk_full),
                decreases stk@.len(),
            {
                let ghost stk_pre = stk@;
                let ghost html_pre = html@;
                let top = stk.pop().unwrap();
                if top == 'b' {
                    html.append("</b>");
                    proof {
                        reveal_strlit("</b>");
                        assert(html@ =~= html_pre + close_tag(top));
                    }
                } else {
                    html.append("</u>");
                    proof {
                        reveal_strlit("</u>");
                        assert(html@ =~= html_pre + close_tag(top));
                    }
                }
                proof {
                    assert(stk@ =~= stk_pre.drop_last());
                    assert(close_all(stk_pre) =~= close_tag(top) + close_all(stk@));
                    assert(html@ + close_all(stk@) =~= body + close_all(stk_full));
                }
            }
            proof {
                assert(html@ + close_all(stk@) =~= html@);
                assert(html@ == body + close_all(stk_full));
            }
            if include_br {
                html.append("<br>\n");
                proof {
                    reveal_strlit("<br>\n");
                    assert(("<br>\n")@ =~= terminator(include_br));
                }
            } else {
                html.append("\n");
                proof {
                    reveal_strlit("\n");
                    assert(("\n")@ =~= terminator(include_br));
                }
            }
            li = li + 1;
            proof {
                assert(html@ =~= rendered_through(lines, include_br, li - 1) + render_line(
                    line@,
                    include_br,
                ));
                assert(html@ == rendered_through(lines, include_br, li as int));
            }
        }
        html
    }

    /// Feed one character to the decoder; the new state is exactly one
    /// `decode_step` from the old one. Every character is accepted.
    pub fn append(&mut self, c: char)
        requires
            old(self).wf(),
        ensures
            final(self).wf(),
            final(self).lines() =~~= decode_step(
                old(self).lines(),
                old(self).cursor_col(),
                c,
            ).0,
            final(self).cursor_col() == decode_step(
                old(self).lines(),
                old(self).cursor_col(),
                c,
            ).1,
    {
        if c == '\u{8}' {
            if self.col > 0 {
                self.col = self.col - 1;
            }
            return ;
        }
        if c == '\r' {
            self.col = 0;
            return ;
        }
        if c == '\n' {
            self.col = 0;
            self.page.push(Vec::new());
            proof {
                assert(self.lines() =~~= old(self).lines().push(Seq::empty()));
            }
            return ;
        }
        let u = c as u32;
        if u < 0x20 || (0x7f <= u && u <= 0x9f) {
            return ;
        }
        let li = self.page.len() - 1;
        let col = self.col;
        if col < self.page[li].len() {
            let cell = self.page[li][col];
            self.page[li][col] = combine_cell(cell, c);
            self.col = col + 1;
        } else {
            self.page[li].push(Cell { c, b: false, u: false });
            self.col = self.page[li].len();
        }
        proof {
            let step = decode_step(old(self).lines(), old(self).cursor_col(), c);
            assert(self.lines() =~~= step.0);
        }
    }
}

/// Whether the tag letter `t` is anywhere on the stack.
fn stack_contains(stk: &Vec<char>, t: char) -> (r: bool)
    ensures
        r == stk@.contains(t),
{
    let mut i: usize = 0;
    while i < stk.len()
        invariant
            0 <= i <= stk@.len(),
            forall|j: int| 0 <= j < i ==> stk@[j] != t,
        decreases stk@.len() - i,
    {
        if stk[i] == t {
            proof {
                assert(stk@[i as int] == t);
            }
            return true;
        }
        i = i + 1;
    }
    false
}

/// Pop and close tags until `t` itself has been closed, appending the
/// closing tags to `html`; no-op if `t` is not on the stack.
fn close_down_exec(stk: &mut Vec<char>, html: &mut String, t: char)
    requires
        tag_chars(old(stk)@),
        t == 'b' || t == 'u',
    ensures
        final(stk)@ == close_down_to(old(stk)@, t).0,
        final(html)@ == old(html)@ + close_down_to(old(stk)@, t).1,
        tag_chars(final(stk)@),
{
    let ghost stk0 = old(stk)@;
    let ghost html0 = old(html)@;
    if !stack_contains(stk, t) {
        proof {
            assert(final(html)@ =~= html0 + close_down_to(stk0, t).1);
        }
        return ;
    }
    let mut done = false;
    while !done
        invariant
            tag_chars(stk@),
            !done ==> stk@.contains(t),
            !done ==> close_down_to(stk0, t).0 == close_down_to(stk@, t).0,
            !done ==> html0 + close_down_to(stk0, t).1 =~= html@ + close_down_to(stk@, t).1,
            done ==> stk@ == close_down_to(stk0, t).0,
            done ==> html@ == html0 + close_down_to(stk0, t).1,
        decreases (if done {
            0int
        } else {
            stk@.len() as int + 1
        }),
    {
        let ghost stk_pre = stk@;
        let ghost html_pre = html@;
        let top = stk.pop().unwrap();
        if top == 'b' {
            html.append("</b>");
            proof {
                reveal_strlit("</b>");
                assert(html@ =~= html_pre + close_tag(top));
            }
        } else {
            html.append("</u>");
            proof {
                reveal_strlit("</u>");
                assert(html@ =~= html_pre + close_tag(top));
            }
        }
        proof {
            assert(stk_pre.last() == top);
            assert(stk@ =~= stk_pre.drop_last());
        }
        if top == t {
            done = true;
            proof {
                assert(close_down_to(stk_pre, t).0 == stk@);
                assert(close_down_to(stk_pre, t).1 == close_tag(top));
                assert(html@ =~= html0 + close_down_to(stk0, t).1);
            }
        } else {
            proof {
                let k = choose|k: int| 0 <= k < stk_pre.len() && stk_pre[k] == t;
                assert(stk_pre[k] == t);
                assert(k < stk_pre.len() - 1);
                assert(stk@[k] == t);
                assert(stk@.contains(t));
                assert(close_down_to(stk_pre, t).0 == close_down_to(stk@, t).0);
                assert(close_down_to(stk_pre, t).1 =~= close_tag(top) + close_down_to(
                    stk@,
                    t,
                ).1);
                assert(html0 + close_down_to(stk0, t).1 =~= html@ + close_down_to(stk@, t).1);
            }
        }
    }
}

/// Render one cell: close the attributes it does not assert, open the ones
/// it does, then append its escaped character to `html`.
fn emit_cell_exec(stk: &mut Vec<char>, html: &mut String, cell: Cell)
    requires
        tag_chars(old(stk)@),
    ensures
        final(stk)@ == emit_cell(old(stk)@, cell).0,
        final(html)@ == old(html)@ + emit_cell(old(stk)@, cell).1,
        tag_chars(final(stk)@),
{
    let ghost stk0 = old(stk)@;
    let ghost html0 = old(html)@;
    let ghost s1 = if !cell.b {
        close_down_to(stk0, 'b')
    } else {
        (stk0, Seq::<char>::empty())
    };
    let ghost s2 = if !cell.u {
        close_down_to(s1.0, 'u')
    } else {
        (s1.0, Seq::<char>::empty())
    };
    let ghost s3 = if cell.b && !s2.0.contains('b') {
        (s2.0.push('b'), open_tag('b'))
    } else {
        (s2.0, Seq::<char>::empty())
    };
    let ghost s4 = if cell.u && !s3.0.contains('u') {
        (s3.0.push('u'), open_tag('u'))
    } else {
        (s3.0, Seq::<char>::empty())
    };
    if !cell.b {
        close_down_exec(stk, html, 'b');
    }
    proof {
        assert(stk@ == s1.0);
        assert(html@ =~= html0 + s1.1);
    }
    if !cell.u {
        close_down_exec(stk, html, 'u');
    }
    proof {
        assert(stk@ == s2.0);
        assert(html@ =~= html0 + s1.1 + s2.1);
    }
    if cell.b && !stack_contains(stk, 'b') {
        stk.push('b');
        html.append("<b>");
        proof {
            reveal_strlit("<b>");
            assert(("<b>")@ =~= open_tag('b'));
        }
    }
    proof {
        assert(stk@ == s3.0);
        assert(html@ =~= html0 + s1.1 + s2.1 + s3.1);
    }
    if cell.u && !stack_contains(stk, 'u') {
        stk.push('u');
        html.append("<u>");
        proof {
            reveal_strlit("<u>");
            assert(("<u>")@ =~= open_tag('u'));
        }
    }
    proof {
        assert(stk@ == s4.0);
        assert(html@ =~= html0 + s1.1 + s2.1 + s3.1 + s4.1);
    }
    if cell.c == '<' {
        html.append("&lt;");
        proof {
            reveal_strlit("&lt;");
            assert(("&lt;")@ =~= escape_char(cell.c));
        }
    } else if cell.c == '>' {
        html.append("&gt;");
        proof {
            reveal_strlit("&gt;");
            assert(("&gt;")@ =~= escape_char(cell.c));
        }
    } else if cell.c == '&' {
        html.append("&amp;");
        proof {
            reveal_strlit("&amp;");
            assert(("&amp;")@ =~= escape_char(cell.c));
        }
    } else {
        html.push(cell.c);
        proof {
            assert(html@ =~= html0 + s1.1 + s2.1 + s3.1 + s4.1 + escape_char(cell.c));
        }
    }
    proof {
        assert(html@ =~= html0 + (s1.1 + s2.1 + s3.1 + s4.1 + escape_char(cell.c)));
        assert(stk@ == emit_cell(stk0, cell).0);
        assert(html@ == html0 + emit_cell(stk0, cell).1);
    }
}

/// Executable form of the overtype combination rule.
fn combine_cell(cell: Cell, c: char) -> (r: Cell)
    ensures
        r == combine(cell, c),
{
    if c == '_' && cell.c != '_' {
        Cell { c: cell.c, b: cell.b, u: true }
    } else if c != '_' && cell.c == '_' {
        Cell { c, b: cell.b, u: true }
    } else if c == cell.c {
        Cell { c: cell.c, b: true, u: cell.u }
    } else {
        Cell { c, b: cell.b, u: cell.u }
    }
}

} // verus!
