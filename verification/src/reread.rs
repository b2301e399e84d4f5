use vstd::prelude::*;
use crate::sexpr::{Tree, tree_children, tree_tag, tagged, atom_texts};
use crate::dsn::{Text, TextPair, WireV, PlacedViaV, WiringV, coord_pairs, atoms_of, first_tagged, sub_atom, spec_wire, spec_via, spec_wiring, wire_path};
use crate::serialise::{coords_text, net_text, wire_line, via_line, wire_lines, via_lines, wiring_text};
use crate::reader::{
    is_ws, is_delim, skip_ws, word_end, quote_at, read_expr, read_items, read_top, read_file,
    lemma_skip_ws, lemma_read_expr_progress,
};

verus! {

// ─── Reading back what the writer wrote ─────────────────────────────────────
//
// The facts below follow the reader through a text piece by piece: each one
// says what the reader makes of a piece found at a position of a larger text.

/// A text that the reader takes back as one bare word.
pub open spec fn is_word(w: Seq<char>) -> bool {
    &&& w.len() > 0
    &&& w[0] != '"'
    &&& forall|i: int| 0 <= i < w.len() ==> !is_delim(#[trigger] w[i])
}

/// A text that can stand between double quotes.
pub open spec fn is_quotable(q: Seq<char>) -> bool {
    forall|i: int| 0 <= i < q.len() ==> #[trigger] q[i] != '"'
}

/// `piece` stands in `s` from position `i` on.
pub open spec fn at(s: Seq<char>, i: int, piece: Seq<char>) -> bool {
    0 <= i && i + piece.len() <= s.len() && s.subrange(i, i + piece.len()) == piece
}

pub(crate) proof fn lemma_at_char(s: Seq<char>, i: int, piece: Seq<char>, k: int)
    requires
        at(s, i, piece),
        0 <= k < piece.len(),
    ensures
        s[i + k] == piece[k],
{
    assert(s.subrange(i, i + piece.len())[k] == s[i + k]);
}

pub(crate) proof fn lemma_at_split(s: Seq<char>, i: int, a: Seq<char>, b: Seq<char>)
    requires
        at(s, i, a + b),
    ensures
        at(s, i, a),
        at(s, i + a.len(), b),
{
    let full = s.subrange(i, i + (a + b).len());
    assert forall|k: int| 0 <= k < a.len() implies #[trigger] s.subrange(i, i + a.len())[k] == a[k] by {
        assert(full[k] == s[i + k]);
        assert((a + b)[k] == a[k]);
    }
    assert(s.subrange(i, i + a.len()) =~= a);
    assert forall|k: int| 0 <= k < b.len() implies #[trigger] s.subrange(i + a.len(), i + a.len() + b.len())[k] == b[k] by {
        assert(full[a.len() + k] == s[i + a.len() + k]);
        assert((a + b)[a.len() + k] == b[k]);
    }
    assert(s.subrange(i + a.len(), i + a.len() + b.len()) =~= b);
}

proof fn lemma_at_sub(s: Seq<char>, i: int, piece: Seq<char>, a: int, b: int)
    requires
        at(s, i, piece),
        0 <= a <= b <= piece.len(),
    ensures
        at(s, i + a, piece.subrange(a, b)),
{
    assert forall|k: int| 0 <= k < b - a implies #[trigger] s.subrange(i + a, i + b)[k] == piece.subrange(a, b)[k] by {
        lemma_at_char(s, i, piece, a + k);
    }
    assert(s.subrange(i + a, i + b) =~= piece.subrange(a, b));
}

proof fn lemma_word_end_at(s: Seq<char>, i: int, e: int)
    requires
        0 <= i <= e < s.len(),
        forall|k: int| i <= k < e ==> !is_delim(#[trigger] s[k]),
        is_delim(s[e]),
    ensures
        word_end(s, i) == e,
    decreases e - i,
{
    if i < e {
        lemma_word_end_at(s, i + 1, e);
    }
}

proof fn lemma_quote_at_pos(s: Seq<char>, i: int, e: int)
    requires
        0 <= i <= e < s.len(),
        forall|k: int| i <= k < e ==> #[trigger] s[k] != '"',
        s[e] == '"',
    ensures
        quote_at(s, i) == Some(e),
    decreases e - i,
{
    if i < e {
        lemma_quote_at_pos(s, i + 1, e);
    }
}

/// A word followed by a delimiter reads back as that word.
pub(crate) proof fn lemma_word(s: Seq<char>, i: int, w: Seq<char>)
    requires
        at(s, i, w),
        is_word(w),
        i + w.len() < s.len(),
        is_delim(s[i + w.len()]),
    ensures
        read_expr(s, i) == Some((Tree::Atom(w), i + w.len())),
{
    lemma_at_char(s, i, w, 0);
    assert forall|k: int| i <= k < i + w.len() implies !is_delim(#[trigger] s[k]) by {
        lemma_at_char(s, i, w, k - i);
    }
    lemma_word_end_at(s, i, i + w.len());
}

/// `"q"` reads back as `q`.
proof fn lemma_quoted(s: Seq<char>, i: int, q: Seq<char>)
    requires
        at(s, i, "\""@ + q + "\""@),
        is_quotable(q),
    ensures
        read_expr(s, i) == Some((Tree::Atom(q), i + q.len() + 2)),
{
    reveal_strlit("\"");
    lemma_at_split(s, i, "\""@ + q, "\""@);
    lemma_at_split(s, i, "\""@, q);
    lemma_at_char(s, i, "\""@, 0);
    lemma_at_char(s, i + 1 + q.len(), "\""@, 0);
    assert forall|k: int| i + 1 <= k < i + 1 + q.len() implies #[trigger] s[k] != '"' by {
        lemma_at_char(s, i + 1, q, k - i - 1);
    }
    lemma_quote_at_pos(s, i + 1, i + 1 + q.len());
}

/// White space before the next item changes nothing.
pub(crate) proof fn lemma_items_ws(s: Seq<char>, i: int)
    requires
        0 <= i < s.len(),
        is_ws(s[i]),
    ensures
        read_items(s, i) == read_items(s, i + 1),
{
    lemma_skip_ws(s, i + 1);
}

/// Skipping a run of white space.
proof fn lemma_items_ws_run(s: Seq<char>, i: int, ws: Seq<char>)
    requires
        at(s, i, ws),
        forall|k: int| 0 <= k < ws.len() ==> is_ws(#[trigger] ws[k]),
    ensures
        read_items(s, i) == read_items(s, i + ws.len()),
    decreases ws.len(),
{
    if ws.len() > 0 {
        assert(ws.take(1) + ws.skip(1) =~= ws);
        lemma_at_split(s, i, ws.take(1), ws.skip(1));
        lemma_at_char(s, i, ws, 0);
        lemma_items_ws(s, i);
        assert forall|k: int| 0 <= k < ws.skip(1).len() implies is_ws(#[trigger] ws.skip(1)[k]) by {
            assert(ws.skip(1)[k] == ws[k + 1]);
        }
        lemma_items_ws_run(s, i + 1, ws.skip(1));
    }
}

/// One item, then the rest of the list.
pub(crate) proof fn lemma_items_cons(s: Seq<char>, i: int, t: Tree, j: int, rest: Seq<Tree>, m: int)
    requires
        0 <= i < s.len(),
        !is_ws(s[i]),
        s[i] != ')',
        read_expr(s, i) == Some((t, j)),
        read_items(s, j) == Some((rest, m)),
    ensures
        read_items(s, i) == Some((seq![t] + rest, m)),
{
    lemma_read_expr_progress(s, i);
}

/// A closing parenthesis ends the list.
pub(crate) proof fn lemma_items_close(s: Seq<char>, i: int)
    requires
        0 <= i < s.len(),
        s[i] == ')',
    ensures
        read_items(s, i) == Some((Seq::<Tree>::empty(), i + 1)),
{
}

/// An opening parenthesis and the items after it make a list.
proof fn lemma_list(s: Seq<char>, i: int, items: Seq<Tree>, m: int)
    requires
        0 <= i < s.len(),
        s[i] == '(',
        read_items(s, i + 1) == Some((items, m)),
    ensures
        read_expr(s, i) == Some((Tree::List(items), m)),
{
}

// ─── Coordinates and paths ──────────────────────────────────────────────────

/// The atoms that `coords_text(path)` reads back as.
pub open spec fn coord_atoms(path: Seq<TextPair>) -> Seq<Tree>
    decreases path.len(),
{
    if path.len() == 0 {
        Seq::empty()
    } else {
        coord_atoms(path.drop_last()) + seq![Tree::Atom(path.last().0), Tree::Atom(path.last().1)]
    }
}

/// The coordinates of a path, one after the other.
pub open spec fn coord_texts(path: Seq<TextPair>) -> Seq<Text>
    decreases path.len(),
{
    if path.len() == 0 {
        Seq::empty()
    } else {
        coord_texts(path.drop_last()) + seq![path.last().0, path.last().1]
    }
}

pub open spec fn words_path(path: Seq<TextPair>) -> bool {
    forall|k: int| 0 <= k < path.len() ==> is_word(#[trigger] path[k].0) && is_word(path[k].1)
}

proof fn lemma_coords(s: Seq<char>, i: int, path: Seq<TextPair>, rest: Seq<Tree>, m: int)
    requires
        at(s, i, coords_text(path)),
        words_path(path),
        i + coords_text(path).len() < s.len(),
        is_delim(s[i + coords_text(path).len()]),
        read_items(s, i + coords_text(path).len()) == Some((rest, m)),
    ensures
        read_items(s, i) == Some((coord_atoms(path) + rest, m)),
    decreases path.len(),
{
    if path.len() > 0 {
        reveal_strlit(" ");
        let pre = coords_text(path.drop_last());
        let x = path.last().0;
        let y = path.last().1;
        assert(path.last() == path[path.len() - 1]);
        let sp = " "@;
        assert(coords_text(path) == pre + sp + x + sp + y);
        lemma_at_split(s, i, pre + sp + x + sp, y);
        lemma_at_split(s, i, pre + sp + x, sp);
        lemma_at_split(s, i, pre + sp, x);
        lemma_at_split(s, i, pre, sp);
        let q = i + pre.len();
        let e = i + coords_text(path).len();
        lemma_at_char(s, q, sp, 0);
        lemma_at_char(s, q + 1 + x.len(), sp, 0);
        lemma_at_char(s, q + 2 + x.len(), y, 0);
        lemma_at_char(s, q + 1, x, 0);
        lemma_word(s, q + 2 + x.len(), y);
        lemma_items_cons(s, q + 2 + x.len(), Tree::Atom(y), e, rest, m);
        lemma_items_ws(s, q + 1 + x.len());
        lemma_word(s, q + 1, x);
        lemma_items_cons(s, q + 1, Tree::Atom(x), q + 1 + x.len(), seq![Tree::Atom(y)] + rest, m);
        lemma_items_ws(s, q);
        assert(seq![Tree::Atom(x)] + (seq![Tree::Atom(y)] + rest) =~= seq![Tree::Atom(x), Tree::Atom(y)] + rest);
        assert forall|k: int| 0 <= k < path.drop_last().len() implies is_word(#[trigger] path.drop_last()[k].0) && is_word(path.drop_last()[k].1) by {
            assert(path.drop_last()[k] == path[k]);
        }
        lemma_coords(s, i, path.drop_last(), seq![Tree::Atom(x), Tree::Atom(y)] + rest, m);
        assert(coord_atoms(path.drop_last()) + (seq![Tree::Atom(x), Tree::Atom(y)] + rest) =~= coord_atoms(path) + rest);
    }
}

/// `(path LAYER WIDTH X Y ...)` as the writer puts it.
pub open spec fn path_text(w: WireV) -> Seq<char> {
    "(path "@ + w.layer + " "@ + w.width + coords_text(w.path) + ")"@
}

pub open spec fn path_tree(w: WireV) -> Tree {
    Tree::List(seq![Tree::Atom("path"@), Tree::Atom(w.layer), Tree::Atom(w.width)] + coord_atoms(w.path))
}

proof fn lemma_path(s: Seq<char>, i: int, w: WireV)
    requires
        at(s, i, path_text(w)),
        is_word(w.layer),
        is_word(w.width),
        words_path(w.path),
    ensures
        read_expr(s, i) == Some((path_tree(w), i + path_text(w).len())),
{
    reveal_strlit("(path ");
    reveal_strlit("path");
    reveal_strlit(" ");
    reveal_strlit(")");
    reveal_strlit("(");
    let c = coords_text(w.path);
    let head = "("@ + "path"@ + " "@;
    assert(path_text(w) == head + w.layer + " "@ + w.width + c + ")"@);
    lemma_at_split(s, i, head + w.layer + " "@ + w.width + c, ")"@);
    lemma_at_split(s, i, head + w.layer + " "@ + w.width, c);
    lemma_at_split(s, i, head + w.layer + " "@, w.width);
    lemma_at_split(s, i, head + w.layer, " "@);
    lemma_at_split(s, i, head, w.layer);
    lemma_at_split(s, i, "("@ + "path"@, " "@);
    lemma_at_split(s, i, "("@, "path"@);
    let a = i + 6;
    let b = a + w.layer.len() + 1;
    let c0 = b + w.width.len();
    let e = c0 + c.len();
    lemma_at_char(s, i, "("@, 0);
    lemma_at_char(s, i + 1, "path"@, 0);
    lemma_at_char(s, i + 5, " "@, 0);
    lemma_at_char(s, a, w.layer, 0);
    lemma_at_char(s, a + w.layer.len(), " "@, 0);
    lemma_at_char(s, b, w.width, 0);
    lemma_at_char(s, e, ")"@, 0);
    lemma_items_close(s, e);
    if c.len() > 0 {
        lemma_at_char(s, c0, c, 0);
        assert(w.path.len() > 0);
        assert(c[0] == ' ') by {
            reveal_with_fuel(coords_text, 1);
            assert(c == coords_text(w.path.drop_last()) + " "@ + w.path.last().0 + " "@ + w.path.last().1);
            if coords_text(w.path.drop_last()).len() > 0 {
                lemma_coords_start(w.path.drop_last());
            }
        }
    } else {
        assert(s[c0] == ')');
    }
    lemma_coords(s, c0, w.path, Seq::empty(), e + 1);
    lemma_word(s, b, w.width);
    lemma_items_cons(s, b, Tree::Atom(w.width), c0, coord_atoms(w.path), e + 1);
    lemma_items_ws(s, a + w.layer.len());
    lemma_word(s, a, w.layer);
    lemma_items_cons(s, a, Tree::Atom(w.layer), a + w.layer.len(), seq![Tree::Atom(w.width)] + coord_atoms(w.path), e + 1);
    lemma_items_ws(s, i + 5);
    assert(is_word("path"@));
    lemma_word(s, i + 1, "path"@);
    lemma_items_cons(s, i + 1, Tree::Atom("path"@), i + 5, seq![Tree::Atom(w.layer)] + (seq![Tree::Atom(w.width)] + coord_atoms(w.path)), e + 1);
    lemma_list(s, i, seq![Tree::Atom("path"@)] + (seq![Tree::Atom(w.layer)] + (seq![Tree::Atom(w.width)] + coord_atoms(w.path))), e + 1);
    assert(seq![Tree::Atom("path"@)] + (seq![Tree::Atom(w.layer)] + (seq![Tree::Atom(w.width)] + coord_atoms(w.path))) =~= seq![Tree::Atom("path"@), Tree::Atom(w.layer), Tree::Atom(w.width)] + coord_atoms(w.path));
}

proof fn lemma_coords_start(path: Seq<TextPair>)
    requires
        coords_text(path).len() > 0,
    ensures
        coords_text(path)[0] == ' ',
    decreases path.len(),
{
    reveal_strlit(" ");
    if path.len() > 0 {
        let pre = coords_text(path.drop_last());
        assert(coords_text(path) == pre + " "@ + path.last().0 + " "@ + path.last().1);
        if pre.len() > 0 {
            lemma_coords_start(path.drop_last());
        }
    }
}

// ─── Wires and vias ─────────────────────────────────────────────────────────

pub open spec fn net_tree(n: Text) -> Tree {
    Tree::List(seq![Tree::Atom("net"@), Tree::Atom(n)])
}

pub open spec fn type_tree() -> Tree {
    Tree::List(seq![Tree::Atom("type"@), Tree::Atom("route"@)])
}

/// `(net "N")` reads back as a `net` node.
proof fn lemma_net(s: Seq<char>, i: int, n: Text)
    requires
        at(s, i, "(net "@ + ("\""@ + n + "\""@) + ")"@),
        is_quotable(n),
    ensures
        read_expr(s, i) == Some((net_tree(n), i + 5 + n.len() + 2 + 1)),
{
    reveal_strlit("(net ");
    reveal_strlit("net");
    reveal_strlit(")");
    let q = "\""@ + n + "\""@;
    lemma_at_split(s, i, "(net "@ + q, ")"@);
    lemma_at_split(s, i, "(net "@, q);
    assert("(net "@ == "("@ + "net"@ + " "@) by {
        reveal_strlit("(");
        reveal_strlit(" ");
    }
    lemma_at_char(s, i, "(net "@, 0);
    lemma_at_char(s, i, "(net "@, 4);
    assert(s.subrange(i + 1, i + 4) =~= "net"@) by {
        assert forall|k: int| 0 <= k < 3 implies #[trigger] s.subrange(i + 1, i + 4)[k] == "net"@[k] by {
            lemma_at_char(s, i, "(net "@, k + 1);
        }
    }
    let e = i + 5 + q.len();
    lemma_at_char(s, e, ")"@, 0);
    lemma_items_close(s, e);
    lemma_quoted(s, i + 5, n);
    reveal_strlit("\"");
    lemma_at_char(s, i + 5, q, 0);
    lemma_items_cons(s, i + 5, Tree::Atom(n), e, Seq::empty(), e + 1);
    lemma_items_ws(s, i + 4);
    lemma_word(s, i + 1, "net"@);
    lemma_items_cons(s, i + 1, Tree::Atom("net"@), i + 4, seq![Tree::Atom(n)], e + 1);
    lemma_list(s, i, seq![Tree::Atom("net"@)] + seq![Tree::Atom(n)], e + 1);
    assert(seq![Tree::Atom("net"@)] + seq![Tree::Atom(n)] =~= seq![Tree::Atom("net"@), Tree::Atom(n)]);
}

/// `(type route)` reads back as a `type` node.
proof fn lemma_type(s: Seq<char>, i: int)
    requires
        at(s, i, "(type route)"@),
    ensures
        read_expr(s, i) == Some((type_tree(), i + 12)),
{
    reveal_strlit("(type route)");
    reveal_strlit("type");
    reveal_strlit("route");
    assert forall|k: int| 0 <= k < 12 implies #[trigger] s[i + k] == "(type route)"@[k] by {
        lemma_at_char(s, i, "(type route)"@, k);
    }
    lemma_at_sub(s, i, "(type route)"@, 1, 5);
    lemma_at_sub(s, i, "(type route)"@, 6, 11);
    assert("(type route)"@.subrange(1, 5) =~= "type"@);
    assert("(type route)"@.subrange(6, 11) =~= "route"@);
    lemma_items_close(s, i + 11);
    lemma_word(s, i + 6, "route"@);
    lemma_items_cons(s, i + 6, Tree::Atom("route"@), i + 11, Seq::empty(), i + 12);
    lemma_items_ws(s, i + 5);
    lemma_word(s, i + 1, "type"@);
    lemma_items_cons(s, i + 1, Tree::Atom("type"@), i + 5, seq![Tree::Atom("route"@)], i + 12);
    lemma_at_char(s, i, "(type route)"@, 0);
    lemma_list(s, i, seq![Tree::Atom("type"@)] + seq![Tree::Atom("route"@)], i + 12);
    assert(seq![Tree::Atom("type"@)] + seq![Tree::Atom("route"@)] =~= seq![Tree::Atom("type"@), Tree::Atom("route"@)]);
}

pub open spec fn net_piece(n: Text) -> Seq<char> {
    "(net "@ + ("\""@ + n + "\""@) + ")"@
}

pub open spec fn wire_tree(w: WireV) -> Tree {
    Tree::List(seq![Tree::Atom("wire"@), path_tree(w), net_tree(net_text(w.net)), type_tree()])
}

proof fn lemma_wire_line_parts(w: WireV)
    ensures
        wire_line(w) == "  "@ + "("@ + "wire"@ + " "@ + path_text(w) + " "@ + net_piece(net_text(w.net)) + " "@
            + "(type route)"@ + ")"@ + "\n"@,
{
    reveal_strlit("  (wire ");
    reveal_strlit("(path ");
    reveal_strlit(" ");
    reveal_strlit(")");
    reveal_strlit(" (net \"");
    reveal_strlit("\") (type route))\n");
    reveal_strlit("  ");
    reveal_strlit("(");
    reveal_strlit("wire");
    reveal_strlit("(net ");
    reveal_strlit("\"");
    reveal_strlit("(type route)");
    reveal_strlit("\n");
    let n = net_text(w.net);
    assert(" (net \""@ + n + "\") (type route))\n"@ =~= " "@ + net_piece(n) + " "@ + "(type route)"@ + ")"@ + "\n"@);
    assert("  (wire "@ =~= "  "@ + "("@ + "wire"@ + " "@);
    assert(wire_line(w) =~= "  "@ + "("@ + "wire"@ + " "@ + path_text(w) + " "@ + net_piece(n) + " "@ + "(type route)"@ + ")"@ + "\n"@);
}

pub open spec fn wire_words(w: WireV) -> bool {
    &&& is_word(w.layer)
    &&& is_word(w.width)
    &&& words_path(w.path)
    &&& is_quotable(net_text(w.net))
}

proof fn lemma_wire_line(s: Seq<char>, p: int, w: WireV, rest: Seq<Tree>, m: int)
    requires
        at(s, p, wire_line(w)),
        wire_words(w),
        read_items(s, p + wire_line(w).len()) == Some((rest, m)),
    ensures
        read_items(s, p) == Some((seq![wire_tree(w)] + rest, m)),
{
    lemma_wire_line_parts(w);
    reveal_strlit("(type route)");
    reveal_strlit("(net ");
    reveal_strlit("\"");
    reveal_strlit("  ");
    reveal_strlit("(");
    reveal_strlit("wire");
    reveal_strlit(" ");
    reveal_strlit(")");
    reveal_strlit("\n");
    let n = net_text(w.net);
    let pt = path_text(w);
    let np = net_piece(n);
    let a1 = "  "@ + "("@;
    let a2 = a1 + "wire"@;
    let a3 = a2 + " "@;
    let a4 = a3 + pt;
    let a5 = a4 + " "@;
    let a6 = a5 + np;
    let a7 = a6 + " "@;
    let a8 = a7 + "(type route)"@;
    let a9 = a8 + ")"@;
    lemma_at_split(s, p, a9, "\n"@);
    lemma_at_split(s, p, a8, ")"@);
    lemma_at_split(s, p, a7, "(type route)"@);
    lemma_at_split(s, p, a6, " "@);
    lemma_at_split(s, p, a5, np);
    lemma_at_split(s, p, a4, " "@);
    lemma_at_split(s, p, a3, pt);
    lemma_at_split(s, p, a2, " "@);
    lemma_at_split(s, p, a1, "wire"@);
    lemma_at_split(s, p, "  "@, "("@);
    let len = wire_line(w).len();
    // the closing parenthesis of the wire and the newline after it
    lemma_at_char(s, p + a9.len(), "\n"@, 0);
    lemma_at_char(s, p + a8.len(), ")"@, 0);
    lemma_items_ws(s, p + a9.len());
    lemma_items_close(s, p + a8.len());
    // (type route)
    lemma_type(s, p + a7.len());
    lemma_at_char(s, p + a7.len(), "(type route)"@, 0);
    lemma_items_cons(s, p + a7.len(), type_tree(), p + a8.len(), Seq::empty(), p + a9.len());
    lemma_at_char(s, p + a6.len(), " "@, 0);
    lemma_items_ws(s, p + a6.len());
    // (net "N")
    lemma_net(s, p + a5.len(), n);
    lemma_at_char(s, p + a5.len(), np, 0);
    assert(np[0] == '(') by {
        reveal_strlit("(net ");
    }
    lemma_items_cons(s, p + a5.len(), net_tree(n), p + a6.len(), seq![type_tree()], p + a9.len());
    lemma_at_char(s, p + a4.len(), " "@, 0);
    lemma_items_ws(s, p + a4.len());
    // (path ...)
    lemma_path(s, p + a3.len(), w);
    lemma_at_char(s, p + a3.len(), pt, 0);
    assert(pt[0] == '(') by {
        reveal_strlit("(path ");
    }
    lemma_items_cons(s, p + a3.len(), path_tree(w), p + a4.len(), seq![net_tree(n)] + seq![type_tree()], p + a9.len());
    lemma_at_char(s, p + a2.len(), " "@, 0);
    lemma_items_ws(s, p + a2.len());
    // wire
    assert(is_word("wire"@));
    lemma_at_char(s, p + a2.len(), " "@, 0);
    lemma_word(s, p + a1.len(), "wire"@);
    lemma_at_char(s, p + a1.len(), "wire"@, 0);
    let items = seq![Tree::Atom("wire"@)] + (seq![path_tree(w)] + (seq![net_tree(n)] + seq![type_tree()]));
    lemma_items_cons(s, p + a1.len(), Tree::Atom("wire"@), p + a2.len(), seq![path_tree(w)] + (seq![net_tree(n)] + seq![type_tree()]), p + a9.len());
    lemma_at_char(s, p + 2, "("@, 0);
    lemma_list(s, p + 2, items, p + a9.len());
    assert(items =~= seq![Tree::Atom("wire"@), path_tree(w), net_tree(n), type_tree()]);
    lemma_items_cons(s, p + 2, wire_tree(w), p + a9.len(), rest, m);
    lemma_items_ws_run(s, p, "  "@);
}

pub open spec fn via_tree(v: PlacedViaV) -> Tree {
    Tree::List(seq![
        Tree::Atom("via"@),
        Tree::Atom(v.padstack),
        Tree::Atom(v.x),
        Tree::Atom(v.y),
        net_tree(net_text(v.net)),
        type_tree(),
    ])
}

pub open spec fn via_words(v: PlacedViaV) -> bool {
    &&& is_quotable(v.padstack)
    &&& is_word(v.x)
    &&& is_word(v.y)
    &&& is_quotable(net_text(v.net))
}

proof fn lemma_via_line_parts(v: PlacedViaV)
    ensures
        via_line(v) == "  "@ + "("@ + "via"@ + " "@ + ("\""@ + v.padstack + "\""@) + " "@ + v.x + " "@ + v.y + " "@
            + net_piece(net_text(v.net)) + " "@ + "(type route)"@ + ")"@ + "\n"@,
{
    reveal_strlit("  (via \"");
    reveal_strlit("\" ");
    reveal_strlit(" ");
    reveal_strlit(")");
    reveal_strlit(" (net \"");
    reveal_strlit("\") (type route))\n");
    reveal_strlit("  ");
    reveal_strlit("(");
    reveal_strlit("via");
    reveal_strlit("(net ");
    reveal_strlit("\"");
    reveal_strlit("(type route)");
    reveal_strlit("\n");
    let n = net_text(v.net);
    assert(" (net \""@ + n + "\") (type route))\n"@ =~= " "@ + net_piece(n) + " "@ + "(type route)"@ + ")"@ + "\n"@);
    assert("  (via \""@ =~= "  "@ + "("@ + "via"@ + " "@ + "\""@);
    assert("\" "@ =~= "\""@ + " "@);
    assert(via_line(v) =~= "  "@ + "("@ + "via"@ + " "@ + ("\""@ + v.padstack + "\""@) + " "@ + v.x + " "@ + v.y + " "@
        + net_piece(n) + " "@ + "(type route)"@ + ")"@ + "\n"@);
}

proof fn lemma_via_line(s: Seq<char>, p: int, v: PlacedViaV, rest: Seq<Tree>, m: int)
    requires
        at(s, p, via_line(v)),
        via_words(v),
        read_items(s, p + via_line(v).len()) == Some((rest, m)),
    ensures
        read_items(s, p) == Some((seq![via_tree(v)] + rest, m)),
{
    lemma_via_line_parts(v);
    reveal_strlit("(type route)");
    reveal_strlit("(net ");
    reveal_strlit("\"");
    reveal_strlit("  ");
    reveal_strlit("(");
    reveal_strlit("via");
    reveal_strlit(" ");
    reveal_strlit(")");
    reveal_strlit("\n");
    let n = net_text(v.net);
    let qp = "\""@ + v.padstack + "\""@;
    let np = net_piece(n);
    let a1 = "  "@ + "("@;
    let a2 = a1 + "via"@;
    let a3 = a2 + " "@;
    let a4 = a3 + qp;
    let a5 = a4 + " "@;
    let a6 = a5 + v.x;
    let a7 = a6 + " "@;
    let a8 = a7 + v.y;
    let a9 = a8 + " "@;
    let a10 = a9 + np;
    let a11 = a10 + " "@;
    let a12 = a11 + "(type route)"@;
    let a13 = a12 + ")"@;
    lemma_at_split(s, p, a13, "\n"@);
    lemma_at_split(s, p, a12, ")"@);
    lemma_at_split(s, p, a11, "(type route)"@);
    lemma_at_split(s, p, a10, " "@);
    lemma_at_split(s, p, a9, np);
    lemma_at_split(s, p, a8, " "@);
    lemma_at_split(s, p, a7, v.y);
    lemma_at_split(s, p, a6, " "@);
    lemma_at_split(s, p, a5, v.x);
    lemma_at_split(s, p, a4, " "@);
    lemma_at_split(s, p, a3, qp);
    lemma_at_split(s, p, a2, " "@);
    lemma_at_split(s, p, a1, "via"@);
    lemma_at_split(s, p, "  "@, "("@);
    let end = p + a13.len();
    // the closing parenthesis and the newline
    lemma_at_char(s, p + a13.len(), "\n"@, 0);
    lemma_at_char(s, p + a12.len(), ")"@, 0);
    lemma_items_ws(s, p + a13.len());
    lemma_items_close(s, p + a12.len());
    // (type route)
    lemma_type(s, p + a11.len());
    lemma_at_char(s, p + a11.len(), "(type route)"@, 0);
    lemma_items_cons(s, p + a11.len(), type_tree(), p + a12.len(), Seq::empty(), end);
    lemma_at_char(s, p + a10.len(), " "@, 0);
    lemma_items_ws(s, p + a10.len());
    // (net "N")
    lemma_net(s, p + a9.len(), n);
    lemma_at_char(s, p + a9.len(), np, 0);
    lemma_items_cons(s, p + a9.len(), net_tree(n), p + a10.len(), seq![type_tree()], end);
    lemma_at_char(s, p + a8.len(), " "@, 0);
    lemma_items_ws(s, p + a8.len());
    // y, x
    lemma_word(s, p + a7.len(), v.y);
    lemma_at_char(s, p + a7.len(), v.y, 0);
    let r1 = seq![net_tree(n)] + seq![type_tree()];
    lemma_items_cons(s, p + a7.len(), Tree::Atom(v.y), p + a8.len(), r1, end);
    lemma_at_char(s, p + a6.len(), " "@, 0);
    lemma_items_ws(s, p + a6.len());
    lemma_word(s, p + a5.len(), v.x);
    lemma_at_char(s, p + a5.len(), v.x, 0);
    let r2 = seq![Tree::Atom(v.y)] + r1;
    lemma_items_cons(s, p + a5.len(), Tree::Atom(v.x), p + a6.len(), r2, end);
    lemma_at_char(s, p + a4.len(), " "@, 0);
    lemma_items_ws(s, p + a4.len());
    // "PADSTACK"
    lemma_quoted(s, p + a3.len(), v.padstack);
    lemma_at_char(s, p + a3.len(), qp, 0);
    let r3 = seq![Tree::Atom(v.x)] + r2;
    lemma_items_cons(s, p + a3.len(), Tree::Atom(v.padstack), p + a4.len(), r3, end);
    lemma_at_char(s, p + a2.len(), " "@, 0);
    lemma_items_ws(s, p + a2.len());
    // via
    assert(is_word("via"@));
    lemma_word(s, p + a1.len(), "via"@);
    lemma_at_char(s, p + a1.len(), "via"@, 0);
    let r4 = seq![Tree::Atom(v.padstack)] + r3;
    lemma_items_cons(s, p + a1.len(), Tree::Atom("via"@), p + a2.len(), r4, end);
    let items = seq![Tree::Atom("via"@)] + r4;
    lemma_at_char(s, p + 2, "("@, 0);
    lemma_list(s, p + 2, items, end);
    assert(items =~= seq![
        Tree::Atom("via"@),
        Tree::Atom(v.padstack),
        Tree::Atom(v.x),
        Tree::Atom(v.y),
        net_tree(n),
        type_tree(),
    ]);
    lemma_items_cons(s, p + 2, via_tree(v), end, rest, m);
    lemma_items_ws_run(s, p, "  "@);
}

// ─── The whole section ──────────────────────────────────────────────────────

/// The nodes that the wire lines read back as (wires with fewer than two path
/// points have no line).
pub open spec fn wire_trees(ws: Seq<WireV>) -> Seq<Tree>
    decreases ws.len(),
{
    if ws.len() == 0 {
        Seq::empty()
    } else {
        wire_trees(ws.drop_last()) + if ws.last().path.len() >= 2 {
            seq![wire_tree(ws.last())]
        } else {
            Seq::empty()
        }
    }
}

pub open spec fn via_trees(vs: Seq<PlacedViaV>) -> Seq<Tree> {
    vs.map_values(|v: PlacedViaV| via_tree(v))
}

/// The texts of a wiring can be written and read back: bare words are words,
/// quoted texts hold no double quote.
pub open spec fn wiring_writable(w: WiringV) -> bool {
    &&& forall|k: int| 0 <= k < w.wires.len() && (#[trigger] w.wires[k]).path.len() >= 2 ==> wire_words(w.wires[k])
    &&& forall|k: int| 0 <= k < w.vias.len() ==> via_words(#[trigger] w.vias[k])
}

proof fn lemma_wire_lines(s: Seq<char>, i: int, ws: Seq<WireV>, rest: Seq<Tree>, m: int)
    requires
        at(s, i, wire_lines(ws)),
        forall|k: int| 0 <= k < ws.len() && (#[trigger] ws[k]).path.len() >= 2 ==> wire_words(ws[k]),
        read_items(s, i + wire_lines(ws).len()) == Some((rest, m)),
    ensures
        read_items(s, i) == Some((wire_trees(ws) + rest, m)),
    decreases ws.len(),
{
    if ws.len() > 0 {
        let pre = wire_lines(ws.drop_last());
        let w = ws.last();
        assert(w == ws[ws.len() - 1]);
        assert forall|k: int| 0 <= k < ws.drop_last().len() && (#[trigger] ws.drop_last()[k]).path.len() >= 2 implies wire_words(ws.drop_last()[k]) by {
            assert(ws.drop_last()[k] == ws[k]);
        }
        if w.path.len() >= 2 {
            lemma_at_split(s, i, pre, wire_line(w));
            lemma_wire_line(s, i + pre.len(), w, rest, m);
            lemma_wire_lines(s, i, ws.drop_last(), seq![wire_tree(w)] + rest, m);
            assert(wire_trees(ws.drop_last()) + (seq![wire_tree(w)] + rest) =~= wire_trees(ws) + rest);
        } else {
            assert(wire_lines(ws) =~= pre);
            lemma_wire_lines(s, i, ws.drop_last(), rest, m);
            assert(wire_trees(ws) =~= wire_trees(ws.drop_last()));
        }
    }
}

proof fn lemma_via_lines(s: Seq<char>, i: int, vs: Seq<PlacedViaV>, rest: Seq<Tree>, m: int)
    requires
        at(s, i, via_lines(vs)),
        forall|k: int| 0 <= k < vs.len() ==> via_words(#[trigger] vs[k]),
        read_items(s, i + via_lines(vs).len()) == Some((rest, m)),
    ensures
        read_items(s, i) == Some((via_trees(vs) + rest, m)),
    decreases vs.len(),
{
    if vs.len() > 0 {
        let pre = via_lines(vs.drop_last());
        let v = vs.last();
        assert(v == vs[vs.len() - 1]);
        assert forall|k: int| 0 <= k < vs.drop_last().len() implies via_words(#[trigger] vs.drop_last()[k]) by {
            assert(vs.drop_last()[k] == vs[k]);
        }
        lemma_at_split(s, i, pre, via_line(v));
        lemma_via_line(s, i + pre.len(), v, rest, m);
        lemma_via_lines(s, i, vs.drop_last(), seq![via_tree(v)] + rest, m);
        assert(via_trees(vs.drop_last()) + (seq![via_tree(v)] + rest) =~= via_trees(vs) + rest);
    }
}

/// The node that the wiring section reads back as.
pub open spec fn wiring_tree(w: WiringV) -> Tree {
    Tree::List(seq![Tree::Atom("wiring"@)] + wire_trees(w.wires) + via_trees(w.vias))
}

#[verifier::rlimit(40)]
/// The written section, found at position `i` of a text, reads there as the
/// wiring node.
pub(crate) proof fn lemma_wiring_at(s: Seq<char>, i: int, w: WiringV)
    requires
        wiring_writable(w),
        at(s, i, wiring_text(w)),
    ensures
        read_expr(s, i) == Some((wiring_tree(w), i + wiring_text(w).len())),
{
    reveal_strlit("(wiring\n");
    reveal_strlit(")");
    reveal_strlit("(");
    reveal_strlit("wiring");
    reveal_strlit("\n");
    let tx = wiring_text(w);
    let wl = wire_lines(w.wires);
    let vl = via_lines(w.vias);
    assert("(wiring\n"@ =~= "("@ + "wiring"@ + "\n"@);
    assert(tx == "("@ + "wiring"@ + "\n"@ + wl + vl + ")"@);
    lemma_at_split(s, i, "("@ + "wiring"@ + "\n"@ + wl + vl, ")"@);
    lemma_at_split(s, i, "("@ + "wiring"@ + "\n"@ + wl, vl);
    lemma_at_split(s, i, "("@ + "wiring"@ + "\n"@, wl);
    lemma_at_split(s, i, "("@ + "wiring"@, "\n"@);
    lemma_at_split(s, i, "("@, "wiring"@);
    let end = i + tx.len();
    let e = end - 1;
    lemma_at_char(s, e, ")"@, 0);
    lemma_items_close(s, e);
    lemma_via_lines(s, i + 8 + wl.len() as int, w.vias, Seq::empty(), end);
    lemma_wire_lines(s, i + 8, w.wires, via_trees(w.vias) + Seq::<Tree>::empty(), end);
    lemma_at_char(s, i + 7, "\n"@, 0);
    lemma_items_ws(s, i + 7);
    assert(is_word("wiring"@));
    lemma_word(s, i + 1, "wiring"@);
    lemma_at_char(s, i + 1, "wiring"@, 0);
    lemma_items_cons(s, i + 1, Tree::Atom("wiring"@), i + 7, wire_trees(w.wires) + (via_trees(w.vias) + Seq::<Tree>::empty()), end);
    lemma_at_char(s, i, "("@, 0);
    lemma_list(s, i, seq![Tree::Atom("wiring"@)] + (wire_trees(w.wires) + (via_trees(w.vias) + Seq::<Tree>::empty())), end);
    assert(seq![Tree::Atom("wiring"@)] + (wire_trees(w.wires) + (via_trees(w.vias) + Seq::<Tree>::empty())) =~= seq![Tree::Atom("wiring"@)] + wire_trees(w.wires) + via_trees(w.vias));
}

// ─── What the reader makes of the nodes ─────────────────────────────────────

/// A wire as it reads back: the net becomes explicit (an absent one reads as
/// the empty name).
pub open spec fn reread_wire(w: WireV) -> WireV {
    WireV { layer: w.layer, width: w.width, path: w.path, net: Some(net_text(w.net)) }
}

/// The wires that read back: those with at least two path points.
pub open spec fn reread_wires(ws: Seq<WireV>) -> Seq<WireV>
    decreases ws.len(),
{
    if ws.len() == 0 {
        Seq::empty()
    } else {
        reread_wires(ws.drop_last()) + if ws.last().path.len() >= 2 {
            seq![reread_wire(ws.last())]
        } else {
            Seq::empty()
        }
    }
}

pub open spec fn reread_via(v: PlacedViaV) -> PlacedViaV {
    PlacedViaV { padstack: v.padstack, x: v.x, y: v.y, net: Some(net_text(v.net)) }
}

/// The wiring that a written wiring section reads back as.
pub open spec fn reread_wiring(w: WiringV) -> WiringV {
    WiringV { wires: reread_wires(w.wires), vias: w.vias.map_values(|v: PlacedViaV| reread_via(v)) }
}

proof fn lemma_atom_texts_coords(pre: Seq<Tree>, path: Seq<TextPair>)
    ensures
        atom_texts(pre + coord_atoms(path)) == atom_texts(pre) + coord_texts(path),
    decreases path.len(),
{
    if path.len() == 0 {
        assert(pre + coord_atoms(path) =~= pre);
        assert(atom_texts(pre) + coord_texts(path) =~= atom_texts(pre));
    } else {
        let x = path.last().0;
        let y = path.last().1;
        lemma_atom_texts_coords(pre, path.drop_last());
        let mid = pre + coord_atoms(path.drop_last());
        let all = pre + coord_atoms(path);
        assert(all =~= mid + seq![Tree::Atom(x), Tree::Atom(y)]);
        assert(all.drop_last() =~= mid.push(Tree::Atom(x)));
        assert(all.drop_last().drop_last() =~= mid);
        assert(atom_texts(all.drop_last()) =~= atom_texts(mid) + seq![x]);
        assert(atom_texts(all) =~= atom_texts(mid) + seq![x] + seq![y]);
        assert(atom_texts(pre) + coord_texts(path) =~= atom_texts(pre) + coord_texts(path.drop_last()) + seq![x, y]);
    }
}

proof fn lemma_coord_pairs_push(a: Seq<Text>, x: Text, y: Text)
    requires
        a.len() % 2 == 0,
    ensures
        coord_pairs(a + seq![x, y]) == coord_pairs(a) + seq![(x, y)],
    decreases a.len(),
{
    if a.len() == 0 {
        assert(a + seq![x, y] =~= seq![x, y]);
        assert(seq![x, y].skip(2) =~= Seq::<Text>::empty());
        assert(coord_pairs(Seq::<Text>::empty()) =~= Seq::<TextPair>::empty());
        assert(coord_pairs(a) + seq![(x, y)] =~= seq![(x, y)]);
    } else {
        assert((a + seq![x, y]).skip(2) =~= a.skip(2) + seq![x, y]);
        lemma_coord_pairs_push(a.skip(2), x, y);
        assert(coord_pairs(a + seq![x, y]) =~= coord_pairs(a) + seq![(x, y)]);
    }
}

proof fn lemma_coord_texts(path: Seq<TextPair>)
    ensures
        coord_texts(path).len() == 2 * path.len(),
        coord_pairs(coord_texts(path)) == path,
    decreases path.len(),
{
    if path.len() == 0 {
        assert(coord_pairs(coord_texts(path)) =~= path);
    } else {
        lemma_coord_texts(path.drop_last());
        lemma_coord_pairs_push(coord_texts(path.drop_last()), path.last().0, path.last().1);
        assert(path.drop_last() + seq![(path.last().0, path.last().1)] =~= path);
    }
}

proof fn lemma_tag_texts()
    ensures
        "net"@ != "path"@,
        "type"@ != "path"@,
        "type"@ != "net"@,
        "via"@ != "wire"@,
        "wire"@ != "via"@,
        "wiring"@ != "wire"@,
        "wiring"@ != "via"@,
{
    reveal_strlit("net");
    reveal_strlit("path");
    reveal_strlit("type");
    reveal_strlit("via");
    reveal_strlit("wire");
    reveal_strlit("wiring");
    assert("type"@[0] != "path"@[0]);
    assert("net"@.len() != "path"@.len());
    assert("type"@.len() != "net"@.len());
    assert("via"@.len() != "wire"@.len());
    assert("wiring"@.len() != "wire"@.len());
    assert("wiring"@.len() != "via"@.len());
}

/// The path and net children of a written wire.
#[verifier::spinoff_prover]
proof fn lemma_wire_kids(w: WireV)
    ensures
        tagged(tree_children(wire_tree(w)), "path"@) == seq![path_tree(w)],
        tagged(tree_children(wire_tree(w)), "net"@) == seq![net_tree(net_text(w.net))],
{
    reveal_strlit("path");
    reveal_strlit("net");
    reveal_strlit("type");
    lemma_tag_texts();
    let t = wire_tree(w);
    let n = net_text(w.net);
    let kids = seq![path_tree(w), net_tree(n), type_tree()];
    assert(tree_children(t) =~= kids);
    assert(kids.drop_last() =~= seq![path_tree(w), net_tree(n)]);
    assert(kids.drop_last().drop_last() =~= seq![path_tree(w)]);
    assert(kids.drop_last().drop_last().drop_last() =~= Seq::<Tree>::empty());
    assert(tree_tag(path_tree(w)) == "path"@);
    assert(tree_tag(net_tree(n)) == "net"@);
    assert(tree_tag(type_tree()) == "type"@);
    assert(tagged(Seq::<Tree>::empty(), "path"@) =~= Seq::<Tree>::empty());
    assert(tagged(Seq::<Tree>::empty(), "net"@) =~= Seq::<Tree>::empty());
    assert(tagged(seq![path_tree(w)], "path"@) =~= seq![path_tree(w)]);
    assert(tagged(seq![path_tree(w)], "net"@) =~= Seq::<Tree>::empty());
    assert(tagged(seq![path_tree(w), net_tree(n)], "path"@) =~= seq![path_tree(w)]);
    assert(tagged(seq![path_tree(w), net_tree(n)], "net"@) =~= seq![net_tree(n)]);
    assert(tagged(kids, "path"@) =~= seq![path_tree(w)]);
    assert(tagged(kids, "net"@) =~= seq![net_tree(n)]);
}

#[verifier::spinoff_prover]
#[verifier::rlimit(40)]
proof fn lemma_spec_wire(w: WireV)
    requires
        wire_words(w),
    ensures
        spec_wire(wire_tree(w)) == Some(reread_wire(w)),
{
    reveal_strlit("path");
    reveal_strlit("net");
    reveal_strlit("type");
    let t = wire_tree(w);
    let n = net_text(w.net);
    lemma_wire_kids(w);
    assert(first_tagged(t, "path"@) == Some(path_tree(w)));
    assert(wire_path(t) == Some(path_tree(w)));
    let pre = seq![Tree::Atom(w.layer), Tree::Atom(w.width)];
    assert(tree_children(path_tree(w)) =~= pre + coord_atoms(w.path));
    lemma_atom_texts_coords(pre, w.path);
    assert(pre.drop_last() =~= seq![Tree::Atom(w.layer)]);
    assert(pre.drop_last().drop_last() =~= Seq::<Tree>::empty());
    assert(atom_texts(Seq::<Tree>::empty()) =~= Seq::<Text>::empty());
    assert(atom_texts(seq![Tree::Atom(w.layer)]) =~= seq![w.layer]);
    assert(atom_texts(pre) =~= seq![w.layer, w.width]);
    let a = atoms_of(path_tree(w));
    assert(a =~= seq![w.layer, w.width] + coord_texts(w.path));
    assert(a.skip(2) =~= coord_texts(w.path));
    lemma_coord_texts(w.path);
    let nk = seq![Tree::Atom(n)];
    assert(tree_children(net_tree(n)) =~= nk);
    assert(nk.drop_last() =~= Seq::<Tree>::empty());
    assert(atom_texts(nk) =~= seq![n]);
    assert(sub_atom(t, "net"@) == Some(n));
}

proof fn lemma_spec_via(v: PlacedViaV)
    ensures
        spec_via(via_tree(v)) == Some(reread_via(v)),
{
    reveal_strlit("net");
    reveal_strlit("type");
    lemma_tag_texts();
    let t = via_tree(v);
    let n = net_text(v.net);
    let kids = seq![Tree::Atom(v.padstack), Tree::Atom(v.x), Tree::Atom(v.y), net_tree(n), type_tree()];
    assert(tree_children(t) =~= kids);
    let k4 = kids.drop_last();
    let k3 = k4.drop_last();
    let k2 = k3.drop_last();
    let k1 = k2.drop_last();
    assert(k4 =~= seq![Tree::Atom(v.padstack), Tree::Atom(v.x), Tree::Atom(v.y), net_tree(n)]);
    assert(k3 =~= seq![Tree::Atom(v.padstack), Tree::Atom(v.x), Tree::Atom(v.y)]);
    assert(k2 =~= seq![Tree::Atom(v.padstack), Tree::Atom(v.x)]);
    assert(k1 =~= seq![Tree::Atom(v.padstack)]);
    assert(k1.drop_last() =~= Seq::<Tree>::empty());
    assert(atom_texts(Seq::<Tree>::empty()) =~= Seq::<Text>::empty());
    assert(tagged(Seq::<Tree>::empty(), "net"@) =~= Seq::<Tree>::empty());
    assert(tree_tag(net_tree(n)) == "net"@);
    assert(tree_tag(type_tree()) == "type"@);
    assert(tree_tag(Tree::Atom(v.padstack)) =~= Seq::<char>::empty());
    assert(tree_tag(Tree::Atom(v.x)) =~= Seq::<char>::empty());
    assert(tree_tag(Tree::Atom(v.y)) =~= Seq::<char>::empty());
    assert(atom_texts(k1) =~= seq![v.padstack]);
    assert(atom_texts(k2) =~= seq![v.padstack, v.x]);
    assert(atom_texts(k3) =~= seq![v.padstack, v.x, v.y]);
    assert(atom_texts(k4) =~= seq![v.padstack, v.x, v.y]);
    assert(atom_texts(kids) =~= seq![v.padstack, v.x, v.y]);
    assert("net"@.len() == 3);
    assert(k1.last() == Tree::Atom(v.padstack));
    assert(k2.last() == Tree::Atom(v.x));
    assert(k3.last() == Tree::Atom(v.y));
    assert(k4.last() == net_tree(n));
    assert(kids.last() == type_tree());
    assert(tagged(k1, "net"@) =~= Seq::<Tree>::empty());
    assert(tagged(k2, "net"@) =~= Seq::<Tree>::empty());
    assert(tagged(k3, "net"@) =~= Seq::<Tree>::empty());
    assert(tagged(k4, "net"@) =~= seq![net_tree(n)]);
    assert(tagged(kids, "net"@) =~= seq![net_tree(n)]);
    let nk = seq![Tree::Atom(n)];
    assert(tree_children(net_tree(n)) =~= nk);
    assert(nk.drop_last() =~= Seq::<Tree>::empty());
    assert(atom_texts(nk) =~= seq![n]);
    assert(sub_atom(t, "net"@) == Some(n));
}

proof fn lemma_tagged_append(a: Seq<Tree>, b: Seq<Tree>, tag: Text)
    ensures
        tagged(a + b, tag) == tagged(a, tag) + tagged(b, tag),
    decreases b.len(),
{
    if b.len() == 0 {
        assert(a + b =~= a);
        assert(tagged(b, tag) =~= Seq::<Tree>::empty());
        assert(tagged(a, tag) + tagged(b, tag) =~= tagged(a, tag));
    } else {
        lemma_tagged_append(a, b.drop_last(), tag);
        assert((a + b).drop_last() =~= a + b.drop_last());
        assert((a + b).last() == b.last());
        assert(tagged(a + b, tag) =~= tagged(a, tag) + tagged(b, tag));
    }
}

proof fn lemma_wire_trees(ws: Seq<WireV>, f: spec_fn(Tree) -> Option<WireV>)
    requires
        forall|k: int| 0 <= k < ws.len() && (#[trigger] ws[k]).path.len() >= 2 ==> wire_words(ws[k]),
        forall|t: Tree| #[trigger] f(t) == spec_wire(t),
    ensures
        tagged(wire_trees(ws), "wire"@) == wire_trees(ws),
        tagged(wire_trees(ws), "via"@) == Seq::<Tree>::empty(),
        wire_trees(ws).filter_map(f) == reread_wires(ws),
    decreases ws.len(),
{
    reveal_strlit("wire");
    lemma_tag_texts();
    if ws.len() == 0 {
        assert(tagged(wire_trees(ws), "wire"@) =~= wire_trees(ws));
        assert(tagged(wire_trees(ws), "via"@) =~= Seq::<Tree>::empty());
        assert(wire_trees(ws).filter_map(f) =~= reread_wires(ws));
    } else {
        let w = ws.last();
        assert(w == ws[ws.len() - 1]);
        assert forall|k: int| 0 <= k < ws.drop_last().len() && (#[trigger] ws.drop_last()[k]).path.len() >= 2 implies wire_words(ws.drop_last()[k]) by {
            assert(ws.drop_last()[k] == ws[k]);
        }
        lemma_wire_trees(ws.drop_last(), f);
        let pre = wire_trees(ws.drop_last());
        if w.path.len() >= 2 {
            lemma_spec_wire(w);
            let t = wire_tree(w);
            assert(wire_trees(ws) == pre + seq![t]);
            assert((pre + seq![t]).drop_last() =~= pre);
            assert((pre + seq![t]).last() == t);
            assert(tree_tag(t) == "wire"@);
            assert(tagged(wire_trees(ws), "wire"@) =~= wire_trees(ws));
            assert(tagged(wire_trees(ws), "via"@) =~= Seq::<Tree>::empty());
            assert(f(t) == Some(reread_wire(w)));
            assert(wire_trees(ws).filter_map(f) =~= reread_wires(ws));
        } else {
            assert(wire_trees(ws) =~= pre);
            assert(reread_wires(ws) =~= reread_wires(ws.drop_last()));
        }
    }
}

proof fn lemma_via_trees(vs: Seq<PlacedViaV>, f: spec_fn(Tree) -> Option<PlacedViaV>)
    requires
        forall|t: Tree| #[trigger] f(t) == spec_via(t),
    ensures
        tagged(via_trees(vs), "via"@) == via_trees(vs),
        tagged(via_trees(vs), "wire"@) == Seq::<Tree>::empty(),
        via_trees(vs).filter_map(f) == vs.map_values(|v: PlacedViaV| reread_via(v)),
    decreases vs.len(),
{
    reveal_strlit("via");
    lemma_tag_texts();
    if vs.len() == 0 {
        assert(tagged(via_trees(vs), "via"@) =~= via_trees(vs));
        assert(tagged(via_trees(vs), "wire"@) =~= Seq::<Tree>::empty());
        assert(via_trees(vs).filter_map(f) =~= vs.map_values(|v: PlacedViaV| reread_via(v)));
    } else {
        let v = vs.last();
        lemma_via_trees(vs.drop_last(), f);
        lemma_spec_via(v);
        let t = via_tree(v);
        let pre = via_trees(vs.drop_last());
        assert(via_trees(vs) =~= pre + seq![t]);
        assert((pre + seq![t]).drop_last() =~= pre);
        assert((pre + seq![t]).last() == t);
        assert(tree_tag(t) == "via"@);
        assert(tagged(via_trees(vs), "via"@) =~= via_trees(vs));
        assert(tagged(via_trees(vs), "wire"@) =~= Seq::<Tree>::empty());
        assert(f(t) == Some(reread_via(v)));
        assert(vs.map_values(|v: PlacedViaV| reread_via(v)) =~= vs.drop_last().map_values(|v: PlacedViaV| reread_via(v)) + seq![reread_via(v)]);
        assert(via_trees(vs).filter_map(f) =~= vs.map_values(|v: PlacedViaV| reread_via(v)));
    }
}

/// What the writer writes, the reader reads back: the `(wiring ...)` text of a
/// wiring reads as one node, which gives back the same wiring, with each net
/// made explicit and the wires of fewer than two points left out.
pub proof fn law_wiring_reads_back(w: WiringV)
    requires
        wiring_writable(w),
    ensures
        read_file(wiring_text(w)) == Some(seq![wiring_tree(w)]),
        tree_tag(wiring_tree(w)) == "wiring"@,
        spec_wiring(wiring_tree(w)) == reread_wiring(w),
{
    reveal_strlit("wiring");
    let s = wiring_text(w);
    assert(at(s, 0, s)) by {
        assert(s.subrange(0, s.len() as int) =~= s);
    }
    lemma_wiring_at(s, 0, w);
    lemma_skip_ws(s, 0);
    assert(s[0] == '(') by {
        reveal_strlit("(wiring\n");
    }
    assert(skip_ws(s, 0) == 0);
    assert(skip_ws(s, s.len() as int) == s.len());
    assert(read_top(s, s.len() as int) == Some(Seq::<Tree>::empty()));
    assert(read_file(s) =~= Some(seq![wiring_tree(w)]));
    let fw = |t: Tree| spec_wire(t);
    let fv = |t: Tree| spec_via(t);
    lemma_wire_trees(w.wires, fw);
    lemma_via_trees(w.vias, fv);
    let wt = wire_trees(w.wires);
    let vt = via_trees(w.vias);
    assert(tree_children(wiring_tree(w)) =~= wt + vt);
    lemma_tagged_append(wt, vt, "wire"@);
    lemma_tagged_append(wt, vt, "via"@);
    assert(tagged(wt + vt, "wire"@) =~= wt);
    assert(tagged(wt + vt, "via"@) =~= vt);
}

} // verus!
