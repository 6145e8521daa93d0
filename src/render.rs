use crate::tree::{children_size, entry_count, subtree_size, Tree};
use vstd::prelude::*;

verus! {

/// What to draw beneath an ancestor while rendering its descendants.
#[derive(Clone, Copy, Debug, PartialEq, Eq, Structural)]
pub enum Padding {
    /// The ancestor was the last of its siblings: blank space.
    Blank,
    /// The ancestor has later siblings: a vertical continuation.
    Bar,
}

/// Rendering settings: which glyph set to draw connectors with.
#[derive(Clone, Copy, Debug)]
pub struct Printer {
    pub ascii: bool,
}

/// The marker pushed for a child: blank beneath the last child, a bar otherwise.
pub open spec fn marker(last: bool) -> Padding {
    if last {
        Padding::Blank
    } else {
        Padding::Bar
    }
}

/// The four characters drawn beneath an ancestor.
pub open spec fn pad_glyph(p: Padding, ascii: bool) -> Seq<char> {
    match p {
        Padding::Blank => seq![' ', ' ', ' ', ' '],
        Padding::Bar => if ascii {
            seq!['|', ' ', ' ', ' ']
        } else {
            seq!['│', ' ', ' ', ' ']
        },
    }
}

/// The four characters drawn right before a non-root node's name.
pub open spec fn connector_glyph(last: bool, ascii: bool) -> Seq<char> {
    if last {
        if ascii {
            seq!['\\', '-', '-', '-']
        } else {
            seq!['└', '─', '─', '─']
        }
    } else {
        if ascii {
            seq!['|', '-', '-', '-']
        } else {
            seq!['├', '─', '─', '─']
        }
    }
}

/// The glyphs of a padding stack, outermost ancestor first.
pub open spec fn pads(prev: Seq<Padding>, ascii: bool) -> Seq<char>
    decreases prev.len(),
{
    if prev.len() == 0 {
        Seq::empty()
    } else {
        pads(prev.drop_last(), ascii) + pad_glyph(prev.last(), ascii)
    }
}

/// What precedes a node's name on its line: nothing for the root; else the
/// glyphs of every ancestor level but the parent's slot, then the connector.
pub open spec fn line_prefix(prev: Seq<Padding>, last: bool, ascii: bool) -> Seq<char> {
    if prev.len() == 0 {
        Seq::empty()
    } else {
        pads(prev.drop_last(), ascii) + connector_glyph(last, ascii)
    }
}

/// The lines of `t` and its descendants in pre-order, given the padding stack
/// `prev` (which ends with `t`'s own marker unless `t` is the root) and
/// whether `t` is the last of its siblings.
pub open spec fn node_lines(t: Tree, prev: Seq<Padding>, last: bool, ascii: bool) -> Seq<Seq<char>>
    decreases t, t.children_view().len() + 1,
{
    seq![line_prefix(prev, last, ascii) + t.name_view()] + children_lines(t, 0, prev, ascii)
}

/// The lines of `t`'s children from index `i` on, each child drawn with its
/// own marker pushed on `prev`.
pub open spec fn children_lines(t: Tree, i: nat, prev: Seq<Padding>, ascii: bool) -> Seq<Seq<char>>
    decreases t, t.children_view().len() - i,
{
    match t {
        Tree::File { .. } => Seq::empty(),
        Tree::Dir { children, .. } => if i < children.len() {
            let last = i == children.len() - 1;
            node_lines(children[i as int], prev.push(marker(last)), last, ascii)
                + children_lines(t, i + 1, prev, ascii)
        } else {
            Seq::empty()
        },
    }
}

/// The whole diagram of `t`: the root's name alone on the first line.
pub open spec fn rendered(t: Tree, ascii: bool) -> Seq<Seq<char>> {
    node_lines(t, Seq::empty(), true, ascii)
}

impl Printer {
    pub fn new(ascii: bool) -> (r: Printer)
        ensures
            r.ascii == ascii,
    {
        Printer { ascii }
    }

    /// Connector before the last child of a directory.
    pub fn last_connection(&self) -> (r: &'static str)
        ensures
            r@ == connector_glyph(true, self.ascii),
    {
        if self.ascii {
            proof {
                reveal_strlit("\\---");
            }
            "\\---"
        } else {
            proof {
                reveal_strlit("└───");
            }
            "└───"
        }
    }

    /// Connector before a child that has later siblings.
    pub fn connection(&self) -> (r: &'static str)
        ensures
            r@ == connector_glyph(false, self.ascii),
    {
        if self.ascii {
            proof {
                reveal_strlit("|---");
            }
            "|---"
        } else {
            proof {
                reveal_strlit("├───");
            }
            "├───"
        }
    }

    /// Vertical continuation beneath an ancestor with later siblings.
    pub fn bar(&self) -> (r: &'static str)
        ensures
            r@ == pad_glyph(Padding::Bar, self.ascii),
    {
        if self.ascii {
            proof {
                reveal_strlit("|   ");
            }
            "|   "
        } else {
            proof {
                reveal_strlit("│   ");
            }
            "│   "
        }
    }

    /// Blank space beneath an ancestor that was the last of its siblings.
    pub fn blank(&self) -> (r: &'static str)
        ensures
            r@ == pad_glyph(Padding::Blank, self.ascii),
    {
        proof {
            reveal_strlit("    ");
        }
        "    "
    }

    /// The text that precedes a node's name, for padding stack `prev`.
    pub fn prefix(&self, prev: &Vec<Padding>, last: bool) -> (r: String)
        ensures
            r@ == line_prefix(prev@, last, self.ascii),
    {
        let mut line = String::new();
        if prev.len() > 0 {
            let n: usize = prev.len() - 1;
            let mut j: usize = 0;
            while j < n
                invariant
                    n == prev@.len() - 1,
                    j <= n,
                    line@ == pads(prev@.subrange(0, j as int), self.ascii),
                decreases n - j,
            {
                let glyph = match prev[j] {
                    Padding::Blank => self.blank(),
                    Padding::Bar => self.bar(),
                };
                line.append(glyph);
                proof {
                    let s = prev@.subrange(0, j + 1);
                    assert(s.drop_last() =~= prev@.subrange(0, j as int));
                }
                j = j + 1;
            }
            proof {
                assert(prev@.subrange(0, n as int) =~= prev@.drop_last());
            }
            if last {
                line.append(self.last_connection());
            } else {
                line.append(self.connection());
            }
        }
        line
    }

    /// Appends the lines of `t` and its descendants to `out`.
    fn node(&self, t: &Tree, prev: &mut Vec<Padding>, last: bool, out: &mut Vec<String>)
        ensures
            final(prev)@ == old(prev)@,
            final(out).deep_view() == old(out).deep_view() + node_lines(*t, old(prev)@, last, self.ascii),
        decreases t,
    {
        let mut line = self.prefix(prev, last);
        line.append(t.name());
        out.push(line);
        proof {
            assert(out.deep_view() =~= old(out).deep_view() + seq![line_prefix(prev@, last, self.ascii) + t.name_view()]);
        }
        match t {
            Tree::File { .. } => {
                proof {
                    assert(node_lines(*t, prev@, last, self.ascii) =~= seq![line_prefix(prev@, last, self.ascii) + t.name_view()]);
                }
            },
            Tree::Dir { name, children } => {
                let ghost head = out.deep_view();
                let len = children.len();
                let mut i: usize = 0;
                while i < len
                    invariant
                        *t == (Tree::Dir { name: *name, children: *children }),
                        len == children@.len(),
                        i <= len,
                        prev@ == old(prev)@,
                        head + children_lines(*t, 0, prev@, self.ascii) == out.deep_view() + children_lines(*t, i as nat, prev@, self.ascii),
                    decreases len - i,
                {
                    let next_last = i == len - 1;
                    let ghost before = out.deep_view();
                    proof {
                        assert(decreases_to!(*t => children[i as int]));
                    }
                    prev.push(if next_last { Padding::Blank } else { Padding::Bar });
                    self.node(&children[i], prev, next_last, out);
                    prev.pop();
                    proof {
                        assert(prev@ =~= old(prev)@);
                        let a = node_lines(children@[i as int], prev@.push(marker(next_last)), next_last, self.ascii);
                        let rest = children_lines(*t, (i + 1) as nat, prev@, self.ascii);
                        assert(children_lines(*t, i as nat, prev@, self.ascii) == a + rest);
                        assert(before + (a + rest) =~= (before + a) + rest);
                    }
                    i = i + 1;
                }
                proof {
                    assert(children_lines(*t, len as nat, prev@, self.ascii) =~= Seq::empty());
                }
            },
        }
    }
}

/// Renders `tree` as lines of text in depth-first pre-order, one per node.
pub fn print_tree(tree: &Tree, printer: &Printer) -> (r: Vec<String>)
    ensures
        r.deep_view() == rendered(*tree, printer.ascii),
{
    let mut prev: Vec<Padding> = Vec::new();
    let mut out: Vec<String> = Vec::new();
    printer.node(tree, &mut prev, true, &mut out);
    proof {
        assert(out.deep_view() =~= rendered(*tree, printer.ascii));
    }
    out
}


proof fn lemma_node_lines_len(t: Tree, prev: Seq<Padding>, last: bool, ascii: bool)
    ensures
        node_lines(t, prev, last, ascii).len() == subtree_size(t),
    decreases t, t.children_view().len() + 1,
{
    lemma_children_lines_len(t, 0, prev, ascii);
}

proof fn lemma_children_lines_len(t: Tree, i: nat, prev: Seq<Padding>, ascii: bool)
    ensures
        children_lines(t, i, prev, ascii).len() == children_size(t, i),
    decreases t, t.children_view().len() - i,
{
    match t {
        Tree::File { .. } => {},
        Tree::Dir { children, .. } => {
            if i < children.len() {
                let last = i == children.len() - 1;
                assert(decreases_to!(t => children[i as int]));
                lemma_node_lines_len(children[i as int], prev.push(marker(last)), last, ascii);
                lemma_children_lines_len(t, i + 1, prev, ascii);
            }
        },
    }
}

/// The lines of the children from `i` on end with the lines of the children
/// from `j` on.
proof fn lemma_children_lines_suffix(t: Tree, i: nat, j: nat, prev: Seq<Padding>, ascii: bool)
    requires
        i <= j <= t.children_view().len(),
    ensures
        children_size(t, j) <= children_size(t, i),
        children_lines(t, i, prev, ascii).subrange(
            children_size(t, i) - children_size(t, j),
            children_size(t, i) as int,
        ) == children_lines(t, j, prev, ascii),
    decreases j - i,
{
    lemma_children_lines_len(t, i, prev, ascii);
    lemma_children_lines_len(t, j, prev, ascii);
    if i == j {
        assert(children_lines(t, i, prev, ascii).subrange(0, children_size(t, i) as int)
            =~= children_lines(t, i, prev, ascii));
    } else {
        let children = t.children_view();
        let last = i == children.len() - 1;
        let head = node_lines(children[i as int], prev.push(marker(last)), last, ascii);
        lemma_node_lines_len(children[i as int], prev.push(marker(last)), last, ascii);
        lemma_children_lines_len(t, i + 1, prev, ascii);
        lemma_children_lines_suffix(t, i + 1, j, prev, ascii);
        let whole = children_lines(t, i, prev, ascii);
        let rest = children_lines(t, i + 1, prev, ascii);
        assert(whole == head + rest);
        assert(whole.subrange(children_size(t, i) - children_size(t, j), children_size(t, i) as int)
            =~= rest.subrange(children_size(t, i + 1) - children_size(t, j), children_size(t, i + 1) as int));
    }
}

proof fn lemma_pads_len(prev: Seq<Padding>, ascii: bool)
    ensures
        pads(prev, ascii).len() == 4 * prev.len(),
    decreases prev.len(),
{
    if prev.len() > 0 {
        lemma_pads_len(prev.drop_last(), ascii);
    }
}

/// A diagram has one line per node: the root's line and one for each entry
/// below it.
pub proof fn line_count(t: Tree, ascii: bool)
    ensures
        rendered(t, ascii).len() == entry_count(t) + 1,
{
    lemma_node_lines_len(t, Seq::empty(), true, ascii);
}

/// Among the children of a directory, drawn at any level, only the final one
/// gets the last connector. Child `j`'s line comes right after the lines of
/// the directory and of the children before it; it holds the ancestors'
/// glyphs, then the connector, then the child's name.
pub proof fn only_final_child_gets_last_connector(
    t: Tree,
    prev: Seq<Padding>,
    last: bool,
    ascii: bool,
    j: nat,
)
    requires
        j < t.children_view().len(),
    ensures
        ({
            let lines = node_lines(t, prev, last, ascii);
            let k = t.children_view().len();
            let at = 1 + children_size(t, 0) - children_size(t, j);
            let col = 4 * prev.len() as int;
            &&& 0 < at < lines.len()
            &&& lines[at] == pads(prev, ascii) + connector_glyph(j == k - 1, ascii) + t.children_view()[j as int].name_view()
            &&& (lines[at].subrange(col, col + 4) == connector_glyph(true, ascii) <==> j == k - 1)
        }),
{
    let lines = node_lines(t, prev, last, ascii);
    let children = t.children_view();
    let k = children.len();
    let lj = j == k - 1;
    let at = 1 + children_size(t, 0) - children_size(t, j);
    lemma_children_lines_suffix(t, 0, j, prev, ascii);
    lemma_children_lines_len(t, 0, prev, ascii);
    lemma_children_lines_len(t, j, prev, ascii);
    lemma_node_lines_len(children[j as int], prev.push(marker(lj)), lj, ascii);
    let all = children_lines(t, 0, prev, ascii);
    let from_j = children_lines(t, j, prev, ascii);
    assert(from_j.len() > 0);
    assert(all[at - 1] == from_j[0]);
    assert(lines[at] == all[at - 1]);
    assert(prev.push(marker(lj)).drop_last() =~= prev);
    let line = from_j[0];
    assert(line == line_prefix(prev.push(marker(lj)), lj, ascii) + children[j as int].name_view());
    lemma_pads_len(prev, ascii);
    let col = 4 * prev.len() as int;
    assert(line.subrange(col, col + 4) =~= connector_glyph(lj, ascii));
    assert(connector_glyph(true, ascii)[0] != connector_glyph(false, ascii)[0]);
}

/// Rendering depends on the tree and the glyph set alone: two renderings of
/// one tree with one glyph set agree line for line.
pub proof fn rendering_is_deterministic(
    t: Tree,
    ascii: bool,
    a: Seq<Seq<char>>,
    b: Seq<Seq<char>>,
)
    requires
        a == rendered(t, ascii),
        b == rendered(t, ascii),
    ensures
        a == b,
{
}

} // verus!
