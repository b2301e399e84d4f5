use vstd::prelude::*;
use crate::sexpr::{Tree, tree_tag};
use crate::dsn::{PcbV, WiringV, DsnError, pcb_fold, spec_parse_dsn, spec_wiring, first_pcb, is_pcb_tag};
use crate::reader::{
    replace_all, preprocessed, quote_directive, quote_directive_replacement, read_file, read_expr, read_items, is_ws,
    is_delim, skip_ws,
};
use crate::reread::{wiring_tree, wiring_writable, reread_wiring, law_wiring_reads_back, is_word, at, lemma_word};
use crate::serialise::{
    wiring_text, wire_lines, via_lines, wire_line, via_line, replaced_wiring, find_wiring, wiring_head, last_index,
    match_close,
};
use crate::rewrite::{wiring_plain, lemma_plain_section_no_directive};
use crate::routed_board::{
    quote_free, law_wiring_written_into_board, law_wiring_written_over_board_wiring, law_board_takes_written_wiring,
    lemma_one_list, lemma_last_index,
};

verus! {

// ─── The quote directive ────────────────────────────────────────────────────

/// The `(string_quote ")` directive stands at position `i` of `x`.
pub open spec fn directive_at(x: Seq<char>, i: int) -> bool {
    x.subrange(i, i + 16) == quote_directive()
}

/// The text holds no `(string_quote ")` directive.
pub open spec fn no_directive(x: Seq<char>) -> bool {
    forall|i: int| 0 <= i && i + 16 <= x.len() ==> !#[trigger] directive_at(x, i)
}

proof fn lemma_directive_text()
    ensures
        quote_directive().len() == 16,
        quote_directive()[0] == '(',
        forall|k: int| 0 <= k < 16 ==> #[trigger] quote_directive()[k] != '\n',
        forall|k: int| 1 <= k < 16 ==> #[trigger] quote_directive()[k] != '(',
{
    reveal_strlit("(string_quote \")");
}

/// Preprocessing leaves a text without the directive as it is.
pub proof fn lemma_preprocessed_same(s: Seq<char>)
    requires
        no_directive(s),
    ensures
        preprocessed(s) == s,
    decreases s.len(),
{
    lemma_directive_text();
    let pat = quote_directive();
    let rep = quote_directive_replacement();
    if s.len() > 0 {
        if pat.len() <= s.len() {
            assert(s.take(16) =~= s.subrange(0, 16));
            assert(!directive_at(s, 0));
        }
        assert forall|i: int| 0 <= i && i + 16 <= s.skip(1).len() implies !#[trigger] directive_at(s.skip(1), i) by {
            assert(s.skip(1).subrange(i, i + 16) =~= s.subrange(i + 1, i + 17));
            assert(!directive_at(s, i + 1));
        }
        lemma_preprocessed_same(s.skip(1));
        assert(replace_all(s, pat, rep) == seq![s[0]] + replace_all(s.skip(1), pat, rep));
        assert(seq![s[0]] + s.skip(1) =~= s);
    }
}

/// A prefix without `(` of what preprocessing makes stood there before.
proof fn lemma_plain_prefix(u: Seq<char>, x: Seq<char>)
    requires
        forall|k: int| 0 <= k < x.len() ==> #[trigger] x[k] != '(',
        preprocessed(u).len() >= x.len(),
        preprocessed(u).take(x.len() as int) == x,
    ensures
        u.len() >= x.len(),
        u.take(x.len() as int) == x,
    decreases x.len(),
{
    lemma_directive_text();
    let pat = quote_directive();
    let rep = quote_directive_replacement();
    if x.len() > 0 {
        assert(u.len() > 0);
        if pat.len() <= u.len() && u.take(16) == pat {
            assert(preprocessed(u) == rep + preprocessed(u.skip(16)));
            reveal_strlit("(string_quote dquote)");
            assert(preprocessed(u)[0] == '(');
            assert(x[0] == preprocessed(u)[0]);
        } else {
            assert(preprocessed(u) == seq![u[0]] + preprocessed(u.skip(1)));
            assert(x[0] == u[0]);
            let x1 = x.skip(1);
            assert(preprocessed(u.skip(1)).take(x1.len() as int) =~= x1) by {
                assert forall|k: int| 0 <= k < x1.len() implies preprocessed(u.skip(1))[k] == x1[k] by {
                    assert(preprocessed(u)[k + 1] == x[k + 1]);
                }
            }
            lemma_plain_prefix(u.skip(1), x1);
            assert(u.take(x.len() as int) =~= x) by {
                assert forall|k: int| 0 <= k < x.len() implies u[k] == x[k] by {
                    if k > 0 {
                        assert(u.skip(1)[k - 1] == x1[k - 1]);
                    }
                }
            }
        }
    }
}

/// Preprocessing leaves no directive behind, so a second run changes nothing.
pub proof fn law_preprocess_idempotent(s: Seq<char>)
    ensures
        no_directive(preprocessed(s)),
        preprocessed(preprocessed(s)) == preprocessed(s),
    decreases s.len(),
{
    lemma_directive_text();
    reveal_strlit("(string_quote dquote)");
    reveal_strlit("(string_quote \")");
    let pat = quote_directive();
    let rep = quote_directive_replacement();
    let out = preprocessed(s);
    if s.len() > 0 {
        if pat.len() <= s.len() && s.take(16) == pat {
            law_preprocess_idempotent(s.skip(16));
            let t = preprocessed(s.skip(16));
            assert(out == rep + t);
            assert forall|i: int| 0 <= i && i + 16 <= out.len() implies !#[trigger] directive_at(out, i) by {
                if i >= 21 {
                    assert(out.subrange(i, i + 16) =~= t.subrange(i - 21, i - 5));
                    assert(!directive_at(t, i - 21));
                } else if i == 0 {
                    assert(out.subrange(0, 16)[14] == rep[14]);
                    assert(rep[14] == 'd' && pat[14] == '"');
                } else {
                    assert(out.subrange(i, i + 16)[0] == rep[i]);
                    assert(rep[i] != '(');
                    assert(pat[0] == '(');
                }
            }
        } else {
            law_preprocess_idempotent(s.skip(1));
            let t = preprocessed(s.skip(1));
            assert(out == seq![s[0]] + t);
            assert forall|i: int| 0 <= i && i + 16 <= out.len() implies !#[trigger] directive_at(out, i) by {
                if i >= 1 {
                    assert(out.subrange(i, i + 16) =~= t.subrange(i - 1, i + 15));
                    assert(!directive_at(t, i - 1));
                } else if directive_at(out, 0) {
                    let x = pat.skip(1);
                    assert forall|k: int| 0 <= k < x.len() implies #[trigger] x[k] != '(' by {
                        assert(x[k] == pat[k + 1]);
                    }
                    assert(t.take(15) =~= x) by {
                        assert forall|k: int| 0 <= k < 15 implies t[k] == x[k] by {
                            assert(out.subrange(0, 16)[k + 1] == pat[k + 1]);
                        }
                    }
                    lemma_plain_prefix(s.skip(1), x);
                    assert(s.take(16) =~= pat) by {
                        assert forall|k: int| 0 <= k < 16 implies s[k] == pat[k] by {
                            if k == 0 {
                                assert(out.subrange(0, 16)[0] == pat[0]);
                            } else {
                                assert(s.skip(1).take(15)[k - 1] == x[k - 1]);
                            }
                        }
                    }
                }
            }
        }
    } else {
        assert(no_directive(out));
    }
    lemma_preprocessed_same(out);
}

/// A window holding the directive holds no newline and no `(` after its first
/// character.
proof fn lemma_window(x: Seq<char>, i: int, k: int)
    requires
        0 <= i,
        i + 16 <= x.len(),
        x.subrange(i, i + 16) == quote_directive(),
        i <= k < i + 16,
    ensures
        x[k] != '\n',
        k > i ==> x[k] != '(',
{
    lemma_directive_text();
    assert(x.subrange(i, i + 16)[k - i] == x[k]);
}

proof fn lemma_window_in(x: Seq<char>, i: int, a: int, y: Seq<char>)
    requires
        0 <= a <= i,
        i + 16 <= a + y.len(),
        a + y.len() <= x.len(),
        x.subrange(a, a + y.len()) == y,
    ensures
        x.subrange(i, i + 16) == y.subrange(i - a, i - a + 16),
{
    assert(x.subrange(i, i + 16) =~= y.subrange(i - a, i - a + 16)) by {
        assert forall|k: int| 0 <= k < 16 implies #[trigger] x.subrange(i, i + 16)[k] == y.subrange(i - a, i - a + 16)[k] by {
            assert(x.subrange(a, a + y.len())[i - a + k] == x[i + k]);
        }
    }
}

proof fn lemma_lines_end(w: WiringV)
    ensures
        wire_lines(w.wires).len() > 0 ==> wire_lines(w.wires).last() == '\n',
        via_lines(w.vias).len() > 0 ==> via_lines(w.vias).last() == '\n',
{
    lemma_wire_lines_end(w.wires);
    lemma_via_lines_end(w.vias);
}

proof fn lemma_wire_lines_end(ws: Seq<crate::dsn::WireV>)
    ensures
        wire_lines(ws).len() > 0 ==> wire_lines(ws).last() == '\n',
    decreases ws.len(),
{
    reveal_strlit("\") (type route))\n");
    if ws.len() > 0 {
        lemma_wire_lines_end(ws.drop_last());
        if ws.last().path.len() >= 2 {
            let l = wire_line(ws.last());
            assert(l.last() == '\n');
            assert((wire_lines(ws.drop_last()) + l).last() == l.last());
        } else {
            assert(wire_lines(ws) =~= wire_lines(ws.drop_last()));
        }
    }
}

proof fn lemma_via_lines_end(vs: Seq<crate::dsn::PlacedViaV>)
    ensures
        via_lines(vs).len() > 0 ==> via_lines(vs).last() == '\n',
    decreases vs.len(),
{
    reveal_strlit("\") (type route))\n");
    if vs.len() > 0 {
        lemma_via_lines_end(vs.drop_last());
        let l = via_line(vs.last());
        assert(l.last() == '\n');
        assert((via_lines(vs.drop_last()) + l).last() == l.last());
    }
}

/// The written section opens with `(`, and ends with a newline and `)`.
proof fn lemma_section_ends(w: WiringV)
    ensures
        wiring_text(w).len() >= 9,
        wiring_text(w)[0] == '(',
        wiring_text(w)[wiring_text(w).len() - 2] == '\n',
        wiring_text(w)[wiring_text(w).len() - 1] == ')',
{
    reveal_strlit("(wiring\n");
    reveal_strlit(")");
    lemma_lines_end(w);
    let head = "(wiring\n"@;
    let body = wire_lines(w.wires) + via_lines(w.vias);
    let tx = wiring_text(w);
    assert(tx == head + body + ")"@);
    assert(tx[0] == head[0]);
    if body.len() > 0 {
        assert(tx[tx.len() - 2] == body.last());
        if via_lines(w.vias).len() > 0 {
            assert(body.last() == via_lines(w.vias).last());
        } else {
            assert(body.last() == wire_lines(w.wires).last());
        }
    } else {
        assert(tx[tx.len() - 2] == head[7]);
    }
}

/// Putting the section, between newlines, in place of a board's closing
/// parenthesis brings no directive in.
proof fn lemma_no_directive_inserted(s: Seq<char>, p: int, w: WiringV)
    requires
        0 <= p <= s.len(),
        no_directive(s),
        no_directive(wiring_text(w)),
    ensures
        no_directive(s.take(p) + "\n"@ + wiring_text(w) + "\n"@ + ")"@),
{
    reveal_strlit("\n");
    reveal_strlit(")");
    lemma_directive_text();
    let tx = wiring_text(w);
    let t = s.take(p) + "\n"@ + tx + "\n"@ + ")"@;
    assert(t[p] == '\n');
    assert(t[p + 1 + tx.len()] == '\n');
    assert forall|i: int| 0 <= i && i + 16 <= t.len() implies !#[trigger] directive_at(t, i) by {
        if directive_at(t, i) {
            if i + 16 <= p {
                assert(t.subrange(0, p) =~= s.take(p));
                assert(s.subrange(0, p) =~= s.take(p));
                lemma_window_in(t, i, 0, s.take(p));
                lemma_window_in(s, i, 0, s.take(p));
                assert(directive_at(s, i));
            } else if i <= p {
                lemma_window(t, i, p);
            } else if i + 16 <= p + 1 + tx.len() {
                assert(t.subrange(p + 1, p + 1 + tx.len()) =~= tx);
                lemma_window_in(t, i, p + 1, tx);
                assert(tx.subrange(i - p - 1, i - p - 1 + 16) == tx.subrange(i - (p + 1), i - (p + 1) + 16));
                assert(directive_at(tx, i - (p + 1)));
            } else {
                lemma_window(t, i, p + 1 + tx.len());
            }
        }
    }
}

/// Putting the section in place of a stretch of a board brings no directive in.
proof fn lemma_no_directive_replaced(s: Seq<char>, a: int, b: int, w: WiringV)
    requires
        0 <= a <= b < s.len(),
        no_directive(s),
        no_directive(wiring_text(w)),
    ensures
        no_directive(s.take(a) + wiring_text(w) + s.skip(b + 1)),
{
    lemma_directive_text();
    lemma_section_ends(w);
    let tx = wiring_text(w);
    let t = s.take(a) + tx + s.skip(b + 1);
    let m = a + tx.len();
    assert(t[a] == '(');
    assert(t[m - 2] == '\n');
    assert(t[m - 1] == ')');
    assert forall|i: int| 0 <= i && i + 16 <= t.len() implies !#[trigger] directive_at(t, i) by {
        if directive_at(t, i) {
            if i + 16 <= a {
                assert(t.subrange(0, a) =~= s.take(a));
                assert(s.subrange(0, a) =~= s.take(a));
                lemma_window_in(t, i, 0, s.take(a));
                lemma_window_in(s, i, 0, s.take(a));
                assert(directive_at(s, i));
            } else if i < a {
                lemma_window(t, i, a);
            } else if i + 16 <= m {
                assert(t.subrange(a, m) =~= tx);
                lemma_window_in(t, i, a, tx);
                assert(directive_at(tx, i - a));
            } else if i <= m - 2 {
                lemma_window(t, i, m - 2);
            } else if i == m - 1 {
                lemma_window(t, i, i);
            } else {
                let rest = s.skip(b + 1);
                assert(t.subrange(m, t.len() as int) =~= rest);
                lemma_window_in(t, i, m, rest);
                lemma_window_in(s, i - m + b + 1, b + 1, rest);
                assert(s.subrange(b + 1, s.len() as int) =~= rest);
                assert(directive_at(s, i - m + b + 1));
            }
        }
    }
}

// ─── What the board reads as ────────────────────────────────────────────────

/// Among a board's items, a wiring section with no other after it gives the
/// board its wiring.
proof fn lemma_wiring_item(pre: Seq<Tree>, x: Tree, post: Seq<Tree>)
    requires
        tree_tag(x) == "wiring"@,
        x is List,
        forall|k: int| 0 <= k < post.len() ==> tree_tag(#[trigger] post[k]) != "wiring"@,
    ensures
        pcb_fold(pre + seq![x] + post) == (PcbV { wiring: spec_wiring(x), ..pcb_fold(pre + post) }),
    decreases post.len(),
{
    if post.len() == 0 {
        assert(pre + seq![x] + post =~= pre.push(x));
        assert(pre + post =~= pre);
        assert(pre.push(x).drop_last() =~= pre);
        assert(pre.push(x).last() == x);
        reveal_strlit("wiring");
        reveal_strlit("resolution");
        reveal_strlit("unit");
        reveal_strlit("structure");
        reveal_strlit("placement");
        reveal_strlit("library");
        reveal_strlit("network");
        assert("wiring"@.len() != "resolution"@.len());
        assert("wiring"@.len() != "unit"@.len());
        assert("wiring"@.len() != "structure"@.len());
        assert("wiring"@.len() != "placement"@.len());
        assert("wiring"@[0] != "library"@[0]);
        assert("wiring"@[0] != "network"@[0]);
    } else {
        let it = post.last();
        assert(it == post[post.len() - 1]);
        assert forall|k: int| 0 <= k < post.drop_last().len() implies tree_tag(#[trigger] post.drop_last()[k]) != "wiring"@ by {
            assert(post.drop_last()[k] == post[k]);
        }
        lemma_wiring_item(pre, x, post.drop_last());
        assert((pre + seq![x] + post).drop_last() =~= pre + seq![x] + post.drop_last());
        assert((pre + seq![x] + post).last() == it);
        assert((pre + post).drop_last() =~= pre + post.drop_last());
        assert((pre + post).last() == it);
    }
}

/// What a text that reads as one board list parses to.
proof fn lemma_parse_one(s: Seq<char>, items: Seq<Tree>)
    requires
        no_directive(s),
        read_file(s) == Some(seq![Tree::List(items)]),
    ensures
        spec_parse_dsn(s) == if is_pcb_tag(tree_tag(Tree::List(items))) {
            Ok::<PcbV, DsnError>(pcb_fold(items.drop_first()))
        } else {
            Err::<PcbV, DsnError>(DsnError::NoPcbRoot)
        },
{
    lemma_preprocessed_same(s);
    let roots = seq![Tree::List(items)];
    assert(roots.drop_first() =~= Seq::<Tree>::empty());
    assert(first_pcb(Seq::<Tree>::empty()) is None);
}

/// A board's tag is that of its first item, which stays when items after it change.
proof fn lemma_pcb_tag(items: Seq<Tree>, other: Seq<Tree>)
    requires
        is_pcb_tag(tree_tag(Tree::List(items))),
        other.len() > 0,
        items.len() > 0 ==> other[0] == items[0],
    ensures
        items.len() > 0,
        tree_tag(Tree::List(other)) == tree_tag(Tree::List(items)),
{
    reveal_strlit("pcb");
    reveal_strlit("PCB");
}

proof fn lemma_find_wiring_head(s: Seq<char>, i: int)
    requires
        find_wiring(s, i) is Some,
    ensures
        wiring_head(s, (find_wiring(s, i)->0).0),
    decreases s.len() - i,
{
    if !crate::serialise::section_start(s, i) {
        lemma_find_wiring_head(s, i + 1);
    }
}

/// The node read at a wiring head is tagged `wiring`.
proof fn lemma_head_tag(s: Seq<char>, a: int, old: Tree, e: int)
    requires
        wiring_head(s, a),
        read_expr(s, a) == Some((old, e)),
    ensures
        tree_tag(old) == "wiring"@,
        old is List,
{
    reveal_strlit("(wiring");
    reveal_strlit("wiring");
    let sub = s.subrange(a, a + 7);
    assert(sub == "(wiring"@);
    assert(sub[0] == s[a]);
    assert(s[a] == '(');
    assert(at(s, a + 1, "wiring"@)) by {
        assert forall|k: int| 0 <= k < 6 implies #[trigger] s.subrange(a + 1, a + 7)[k] == "wiring"@[k] by {
            assert(sub[k + 1] == s[a + 1 + k]);
            assert("(wiring"@[k + 1] == "wiring"@[k]);
        }
        assert(s.subrange(a + 1, a + 7) =~= "wiring"@);
    }
    assert(is_word("wiring"@));
    assert(is_delim(s[a + 7]));
    lemma_word(s, a + 1, "wiring"@);
    let (items, m) = read_items(s, a + 1)->0;
    assert(skip_ws(s, a + 1) == a + 1);
    assert(items[0] == Tree::Atom("wiring"@));
}

// ─── Texts that hold the quote directive ─────────────────────────────────────

/// No quote directive runs across the seam between `x` and `y`.
pub open spec fn no_directive_across(x: Seq<char>, y: Seq<char>) -> bool {
    forall|i: int| 0 <= i < x.len() && x.len() < i + 16 <= x.len() + y.len() ==> !#[trigger] directive_at(x + y, i)
}

/// A quote directive ends at position `q` of `s`.
pub open spec fn directive_ends_at(s: Seq<char>, q: int) -> bool {
    q >= 15 && q + 1 <= s.len() && directive_at(s, q - 15)
}

proof fn lemma_directive_close()
    ensures
        quote_directive()[15] == ')',
        forall|k: int| 0 <= k < 15 ==> #[trigger] quote_directive()[k] != ')',
{
    reveal_strlit("(string_quote \")");
}

/// Preprocessing works on each side of a seam that no directive runs across.
proof fn lemma_pp_concat(x: Seq<char>, y: Seq<char>)
    requires
        no_directive_across(x, y),
    ensures
        preprocessed(x + y) == preprocessed(x) + preprocessed(y),
    decreases x.len(),
{
    lemma_directive_text();
    let pat = quote_directive();
    let rep = quote_directive_replacement();
    let z = x + y;
    if x.len() == 0 {
        assert(z =~= y);
        assert(preprocessed(x) =~= Seq::<char>::empty());
    } else if pat.len() <= z.len() && z.take(16) == pat {
        if x.len() >= 16 {
            assert(x.take(16) =~= z.take(16));
            let x2 = x.skip(16);
            assert(z.skip(16) =~= x2 + y);
            assert forall|i: int| 0 <= i < x2.len() && x2.len() < i + 16 <= x2.len() + y.len() implies !#[trigger] directive_at(x2 + y, i) by {
                assert((x2 + y).subrange(i, i + 16) =~= z.subrange(i + 16, i + 32));
                assert(!directive_at(z, i + 16));
            }
            lemma_pp_concat(x2, y);
            assert(preprocessed(z) == rep + preprocessed(z.skip(16)));
            assert(preprocessed(x) == rep + preprocessed(x2));
        } else {
            assert(z.subrange(0, 16) =~= z.take(16));
            assert(directive_at(z, 0));
        }
    } else {
        if x.len() >= 16 {
            assert(x.take(16) =~= z.take(16));
        }
        let x2 = x.skip(1);
        assert(z.skip(1) =~= x2 + y);
        assert(z[0] == x[0]);
        assert forall|i: int| 0 <= i < x2.len() && x2.len() < i + 16 <= x2.len() + y.len() implies !#[trigger] directive_at(x2 + y, i) by {
            assert((x2 + y).subrange(i, i + 16) =~= z.subrange(i + 1, i + 17));
            assert(!directive_at(z, i + 1));
        }
        lemma_pp_concat(x2, y);
        assert(preprocessed(z) == seq![z[0]] + preprocessed(z.skip(1)));
        assert(preprocessed(x) == seq![x[0]] + preprocessed(x2));
        assert(preprocessed(z) =~= preprocessed(x) + preprocessed(y));
    }
}

/// No directive runs across a seam before a newline or a `(`.
proof fn lemma_across_newline_or_open(x: Seq<char>, y: Seq<char>)
    requires
        y.len() > 0,
        y[0] == '\n' || y[0] == '(',
    ensures
        no_directive_across(x, y),
{
    assert forall|i: int| 0 <= i < x.len() && x.len() < i + 16 <= x.len() + y.len() implies !#[trigger] directive_at(x + y, i) by {
        if directive_at(x + y, i) {
            lemma_window(x + y, i, x.len() as int);
            assert((x + y)[x.len() as int] == y[0]);
        }
    }
}

/// No directive runs across a seam before a `)`, unless one ends there.
proof fn lemma_across_close(x: Seq<char>, y: Seq<char>)
    requires
        y.len() > 0,
        y[0] == ')',
        !directive_ends_at(x + y, x.len() as int),
    ensures
        no_directive_across(x, y),
{
    lemma_directive_close();
    assert forall|i: int| 0 <= i < x.len() && x.len() < i + 16 <= x.len() + y.len() implies !#[trigger] directive_at(x + y, i) by {
        if directive_at(x + y, i) {
            let k = x.len() - i;
            assert((x + y).subrange(i, i + 16)[k] == (x + y)[x.len() as int]);
            assert((x + y)[x.len() as int] == ')');
            if k < 15 {
                assert(quote_directive()[k] != ')');
            } else {
                assert(i == x.len() - 15);
            }
        }
    }
}

/// A text without `)` holds no directive.
proof fn lemma_no_close_no_directive(x: Seq<char>)
    requires
        forall|k: int| 0 <= k < x.len() ==> #[trigger] x[k] != ')',
    ensures
        no_directive(x),
{
    lemma_directive_close();
    assert forall|i: int| 0 <= i && i + 16 <= x.len() implies !#[trigger] directive_at(x, i) by {
        if directive_at(x, i) {
            assert(x.subrange(i, i + 16)[15] == x[i + 15]);
        }
    }
}

proof fn lemma_last_index_facts(s: Seq<char>, c: char)
    ensures
        last_index(s, c) matches Some(q) ==> 0 <= q < s.len() && s[q] == c && forall|x: int| q < x < s.len() ==> #[trigger] s[x] != c,
    decreases s.len(),
{
    if s.len() > 0 && s.last() != c {
        lemma_last_index_facts(s.drop_last(), c);
        if last_index(s, c) is Some {
            let q = last_index(s, c)->0;
            assert forall|x: int| q < x < s.len() implies #[trigger] s[x] != c by {
                if x < s.len() - 1 {
                    assert(s.drop_last()[x] == s[x]);
                }
            }
        }
    }
}

proof fn lemma_last_close(x: Seq<char>, r: Seq<char>)
    requires
        forall|k: int| 0 <= k < r.len() ==> #[trigger] r[k] != ')',
    ensures
        last_index(x + seq![')'] + r, ')') == Some(x.len() as int),
    decreases r.len(),
{
    let z = x + seq![')'] + r;
    if r.len() == 0 {
        assert(z.last() == ')');
    } else {
        assert(z.drop_last() =~= x + seq![')'] + r.drop_last());
        assert(z.last() == r.last());
        lemma_last_close(x, r.drop_last());
    }
}

/// Where the text's last `)` closes no directive, preprocessing leaves that
/// `)` as the last one, after the preprocessed text before it.
proof fn lemma_pp_last_close(s: Seq<char>, q: int)
    requires
        last_index(s, ')') == Some(q),
        !directive_ends_at(s, q),
    ensures
        0 <= q < s.len(),
        last_index(preprocessed(s), ')') == Some(preprocessed(s.take(q)).len() as int),
        preprocessed(s).take(preprocessed(s.take(q)).len() as int) == preprocessed(s.take(q)),
{
    lemma_last_index_facts(s, ')');
    let x = s.take(q);
    let r = s.skip(q + 1);
    let y = seq![')'] + r;
    assert(s =~= x + y);
    assert forall|k: int| 0 <= k < r.len() implies #[trigger] r[k] != ')' by {
        assert(r[k] == s[q + 1 + k]);
    }
    lemma_across_close(x, y);
    lemma_pp_concat(x, y);
    lemma_no_close_no_directive(r);
    lemma_preprocessed_same(r);
    lemma_directive_text();
    assert(preprocessed(y) == seq![')'] + preprocessed(r)) by {
        assert(y[0] != '(');
        if quote_directive().len() <= y.len() {
            assert(y.take(16)[0] == ')');
        }
        assert(y.skip(1) =~= r);
    }
    let pps = preprocessed(s);
    assert(pps =~= preprocessed(x) + seq![')'] + r);
    lemma_last_close(preprocessed(x), r);
    assert(pps.take(preprocessed(x).len() as int) =~= preprocessed(x));
}


/// A board without a wiring section, once routed and written, parses as the
/// same board with the wiring that was written (where the board text and the
/// written section hold no quote directive, and no item of the board is a
/// lone double quote).
pub proof fn law_routed_board_parses_back(s: Seq<char>, items: Seq<Tree>, w: WiringV, p: PcbV)
    requires
        no_directive(s),
        no_directive(wiring_text(w)),
        read_file(s) == Some(seq![Tree::List(items)]),
        quote_free(Tree::List(items)),
        find_wiring(s, 0) is None,
        wiring_writable(w),
        spec_parse_dsn(s) == Ok::<PcbV, DsnError>(p),
    ensures
        spec_parse_dsn(replaced_wiring(s, wiring_text(w))) == Ok::<PcbV, DsnError>(PcbV { wiring: reread_wiring(w), ..p }),
{
    let (k0, e) = lemma_one_list(s, items);
    assert forall|x: int| e - 1 < x < s.len() implies #[trigger] s[x] != ')' by {
        assert(is_ws(s[x]));
    }
    lemma_last_index(s, ')', e - 1);
    let t = replaced_wiring(s, wiring_text(w));
    assert(t == s.take(e - 1) + "\n"@ + wiring_text(w) + "\n"@ + ")"@);
    lemma_no_directive_inserted(s, e - 1, w);
    law_wiring_written_into_board(s, items, w);
    lemma_parse_one(s, items);
    let items2 = items.push(wiring_tree(w));
    lemma_pcb_tag(items, items2);
    lemma_parse_one(t, items2);
    assert(items2.drop_first() =~= items.drop_first() + seq![wiring_tree(w)] + Seq::<Tree>::empty());
    assert(items.drop_first() + Seq::<Tree>::empty() =~= items.drop_first());
    law_board_takes_written_wiring(items.drop_first(), Seq::empty(), w);
}

/// Preprocessing a short text changes nothing.
proof fn lemma_pp_short(x: Seq<char>)
    requires
        x.len() < 16,
    ensures
        preprocessed(x) == x,
{
    assert(no_directive(x));
    lemma_preprocessed_same(x);
}

/// The written section, between newlines and before the closing `)`, comes
/// through preprocessing as it is.
proof fn lemma_pp_tail(tx: Seq<char>)
    requires
        no_directive(tx),
        tx.len() > 0,
        tx[0] == '(',
    ensures
        preprocessed("\n"@ + tx + "\n"@ + ")"@) == "\n"@ + tx + "\n"@ + ")"@,
{
    reveal_strlit("\n");
    reveal_strlit(")");
    let nl = "\n"@;
    let close = "\n"@ + ")"@;
    let y2 = tx + close;
    lemma_across_newline_or_open(tx, close);
    lemma_pp_concat(tx, close);
    lemma_preprocessed_same(tx);
    lemma_pp_short(close);
    lemma_across_newline_or_open(nl, y2);
    lemma_pp_concat(nl, y2);
    lemma_pp_short(nl);
    assert(nl + y2 =~= "\n"@ + tx + "\n"@ + ")"@);
}

/// A board text without a wiring section, quote directive and quoted names
/// allowed, once routed and written, parses as the same board with the wiring
/// that was written. The reader's text (the preprocessed one) is one list with
/// no item a lone double quote and no wiring section; the text's last `)`
/// closes no quote directive; the written names and numbers neither quote nor nest.
pub proof fn law_routed_dsn_parses_back(s: Seq<char>, items: Seq<Tree>, w: WiringV, p: PcbV)
    requires
        read_file(preprocessed(s)) == Some(seq![Tree::List(items)]),
        quote_free(Tree::List(items)),
        find_wiring(s, 0) is None,
        find_wiring(preprocessed(s), 0) is None,
        last_index(s, ')') matches Some(q) && !directive_ends_at(s, q),
        wiring_plain(w),
        wiring_writable(w),
        spec_parse_dsn(s) == Ok::<PcbV, DsnError>(p),
    ensures
        spec_parse_dsn(replaced_wiring(s, wiring_text(w))) == Ok::<PcbV, DsnError>(PcbV { wiring: reread_wiring(w), ..p }),
{
    lemma_plain_section_no_directive(w);
    reveal_strlit("(wiring\n");
    let tx = wiring_text(w);
    assert(tx[0] == '(') by {
        assert(tx[0] == "(wiring\n"@[0]);
    }
    let q = last_index(s, ')')->0;
    let sp = preprocessed(s);
    lemma_pp_last_close(s, q);
    let x = s.take(q);
    let y = "\n"@ + tx + "\n"@ + ")"@;
    let t = replaced_wiring(s, tx);
    assert(t == x + "\n"@ + tx + "\n"@ + ")"@);
    assert(t =~= x + y);
    reveal_strlit("\n");
    lemma_across_newline_or_open(x, y);
    lemma_pp_concat(x, y);
    lemma_pp_tail(tx);
    // the reader's text of the written board is the written reader's text
    let tp = replaced_wiring(sp, tx);
    assert(tp == sp.take(preprocessed(x).len() as int) + "\n"@ + tx + "\n"@ + ")"@);
    assert(preprocessed(t) =~= tp);
    law_preprocess_idempotent(s);
    law_preprocess_idempotent(t);
    assert(spec_parse_dsn(sp) == spec_parse_dsn(s));
    law_routed_board_parses_back(sp, items, w, p);
    assert(spec_parse_dsn(tp) == spec_parse_dsn(t));
}

/// A board with a wiring section among its items (and none after it), once
/// routed and written, parses as the same board with the wiring that was
/// written (where the board text and the written section hold no quote
/// directive, and no item before the section is a lone double quote).
pub proof fn law_rerouted_board_parses_back(
    s: Seq<char>,
    a: int,
    b: int,
    pre: Seq<Tree>,
    old: Tree,
    post: Seq<Tree>,
    e: int,
    w: WiringV,
    p: PcbV,
)
    requires
        no_directive(s),
        no_directive(wiring_text(w)),
        find_wiring(s, 0) == Some((a, b)),
        read_file(s.take(a) + ")"@) == Some(seq![Tree::List(pre)]),
        quote_free(Tree::List(pre)),
        read_expr(s, a) == Some((old, b + 1)),
        read_items(s, b + 1) == Some((post, e)),
        forall|x: int| e <= x < s.len() ==> is_ws(#[trigger] s[x]),
        forall|k: int| 0 <= k < post.len() ==> tree_tag(#[trigger] post[k]) != "wiring"@,
        wiring_writable(w),
        spec_parse_dsn(s) == Ok::<PcbV, DsnError>(p),
    ensures
        spec_parse_dsn(replaced_wiring(s, wiring_text(w))) == Ok::<PcbV, DsnError>(PcbV { wiring: reread_wiring(w), ..p }),
{
    law_wiring_written_over_board_wiring(s, a, b, pre, old, post, e, w);
    crate::serialise::lemma_find_wiring_bounds(s, 0);
    let t = replaced_wiring(s, wiring_text(w));
    assert(t == s.take(a) + wiring_text(w) + s.skip(b + 1));
    lemma_no_directive_replaced(s, a, b, w);
    lemma_find_wiring_head(s, 0);
    lemma_head_tag(s, a, old, b + 1);
    let items = pre + seq![old] + post;
    let items2 = pre + seq![wiring_tree(w)] + post;
    lemma_parse_one(s, items);
    assert(pre.len() > 0) by {
        if pre.len() == 0 {
            assert(items[0] == old);
            reveal_strlit("pcb");
            reveal_strlit("PCB");
        }
    }
    assert(items2[0] == items[0]);
    lemma_pcb_tag(items, items2);
    lemma_parse_one(t, items2);
    let rest = pre.drop_first();
    assert(items.drop_first() =~= rest + seq![old] + post);
    assert(items2.drop_first() =~= rest + seq![wiring_tree(w)] + post);
    lemma_wiring_item(rest, old, post);
    law_board_takes_written_wiring(rest, post, w);
}


/// No directive runs across a seam after a `)`.
proof fn lemma_across_after_close(x: Seq<char>, y: Seq<char>)
    requires
        x.len() > 0,
        x.last() == ')',
    ensures
        no_directive_across(x, y),
{
    lemma_directive_close();
    assert forall|i: int| 0 <= i < x.len() && x.len() < i + 16 <= x.len() + y.len() implies !#[trigger] directive_at(x + y, i) by {
        if directive_at(x + y, i) {
            let k = x.len() - 1 - i;
            assert((x + y).subrange(i, i + 16)[k] == (x + y)[x.len() - 1]);
            assert((x + y)[x.len() - 1] == x.last());
            assert(quote_directive()[k] != ')');
        }
    }
}

/// Preprocessing goes piece by piece around a wiring section and around a
/// section written in its place.
#[verifier::spinoff_prover]
proof fn lemma_pp_sections(s: Seq<char>, a: int, b: int, tx: Seq<char>)
    requires
        find_wiring(s, 0) == Some((a, b)),
        no_directive(tx),
        tx.len() > 0,
        tx[0] == '(',
        tx.last() == ')',
    ensures
        preprocessed(s) == preprocessed(s.take(a)) + preprocessed(s.subrange(a, b + 1)) + preprocessed(s.skip(b + 1)),
        reader_pos(s, b + 1) == preprocessed(s.take(a)).len() + preprocessed(s.subrange(a, b + 1)).len(),
        preprocessed(s.take(a) + tx + s.skip(b + 1)) == preprocessed(s.take(a)) + tx + preprocessed(s.skip(b + 1)),
{
    crate::serialise::lemma_find_wiring_bounds(s, 0);
    lemma_find_wiring_head(s, 0);
    assert(s[a] == '(') by {
        reveal_strlit("(wiring");
        assert(s.subrange(a, a + 7)[0] == s[a]);
        assert("(wiring"@[0] == '(');
    }
    let x = s.take(a);
    let sec = s.subrange(a, b + 1);
    let rest = s.skip(b + 1);
    assert(s =~= x + (sec + rest));
    assert((sec + rest)[0] == '(');
    lemma_across_newline_or_open(x, sec + rest);
    lemma_pp_concat(x, sec + rest);
    lemma_found_close(s, a, b);
    assert(sec.last() == ')');
    lemma_across_after_close(sec, rest);
    lemma_pp_concat(sec, rest);
    assert(s.take(b + 1) =~= x + sec);
    assert(sec[0] == '(');
    lemma_across_newline_or_open(x, sec);
    lemma_pp_concat(x, sec);
    assert(x + tx + rest =~= x + (tx + rest));
    assert((tx + rest)[0] == '(');
    lemma_across_newline_or_open(x, tx + rest);
    lemma_pp_concat(x, tx + rest);
    lemma_across_after_close(tx, rest);
    lemma_pp_concat(tx, rest);
    lemma_preprocessed_same(tx);
}

/// Where preprocessing puts position `i` of the text.
pub open spec fn reader_pos(s: Seq<char>, i: int) -> int {
    preprocessed(s.take(i)).len() as int
}

/// A board text whose wiring section is followed by no other, quote directive
/// and quoted names allowed, once routed and written, parses as the same board
/// with the wiring that was written. The section lies at `a..=b` in the text
/// and, after preprocessing, at the positions preprocessing moves those to,
/// where the reader's text reads as `pre`, the section `old` and the items
/// `post` after it (no item before the section a lone double quote, none after
/// it tagged `wiring`); the written names and numbers neither quote nor nest.
pub proof fn law_rerouted_dsn_parses_back(
    s: Seq<char>,
    a: int,
    b: int,
    pre: Seq<Tree>,
    old: Tree,
    post: Seq<Tree>,
    e: int,
    w: WiringV,
    p: PcbV,
)
    requires
        wiring_plain(w),
        find_wiring(s, 0) == Some((a, b)),
        find_wiring(preprocessed(s), 0) == Some((reader_pos(s, a), reader_pos(s, b + 1) - 1)),
        read_file(preprocessed(s).take(reader_pos(s, a)) + ")"@) == Some(seq![Tree::List(pre)]),
        quote_free(Tree::List(pre)),
        read_expr(preprocessed(s), reader_pos(s, a)) == Some((old, reader_pos(s, b + 1))),
        read_items(preprocessed(s), reader_pos(s, b + 1)) == Some((post, e)),
        forall|x: int| e <= x < preprocessed(s).len() ==> is_ws(#[trigger] preprocessed(s)[x]),
        forall|k: int| 0 <= k < post.len() ==> tree_tag(#[trigger] post[k]) != "wiring"@,
        wiring_writable(w),
        spec_parse_dsn(s) == Ok::<PcbV, DsnError>(p),
    ensures
        spec_parse_dsn(replaced_wiring(s, wiring_text(w))) == Ok::<PcbV, DsnError>(PcbV { wiring: reread_wiring(w), ..p }),
{
    lemma_plain_section_no_directive(w);
    reveal_strlit("(wiring\n");
    reveal_strlit(")");
    let tx = wiring_text(w);
    assert(tx[0] == '(') by {
        assert(tx[0] == "(wiring\n"@[0]);
    }
    assert(tx.last() == ')');
    crate::serialise::lemma_find_wiring_bounds(s, 0);
    let sp = preprocessed(s);
    lemma_pp_sections(s, a, b, tx);
    let x = s.take(a);
    let rest = s.skip(b + 1);
    let a2 = reader_pos(s, a);
    let b2 = reader_pos(s, b + 1) - 1;
    assert(sp.take(a2) =~= preprocessed(x));
    assert(sp.skip(b2 + 1) =~= preprocessed(rest));
    let t = replaced_wiring(s, tx);
    assert(t == x + tx + rest);
    let tp = replaced_wiring(sp, tx);
    assert(tp == sp.take(a2) + tx + sp.skip(b2 + 1));
    assert(preprocessed(t) =~= tp);
    law_preprocess_idempotent(s);
    law_preprocess_idempotent(t);
    assert(spec_parse_dsn(sp) == spec_parse_dsn(s));
    law_rerouted_board_parses_back(sp, a2, b2, pre, old, post, e, w, p);
    assert(spec_parse_dsn(tp) == spec_parse_dsn(t));
}

/// The section found ends with its closing parenthesis.
proof fn lemma_found_close(s: Seq<char>, a: int, b: int)
    requires
        find_wiring(s, 0) == Some((a, b)),
    ensures
        s[b] == ')',
        0 <= a <= b < s.len(),
{
    crate::serialise::lemma_find_wiring_bounds(s, 0);
    lemma_found_match(s, 0);
    crate::serialise::lemma_match_close_closes(s, a, 0, false);
}

proof fn lemma_found_match(s: Seq<char>, j: int)
    requires
        find_wiring(s, j) is Some,
    ensures
        match_close(s, (find_wiring(s, j)->0).0, 0, false) == Some((find_wiring(s, j)->0).1),
    decreases s.len() - j,
{
    if !crate::serialise::section_start(s, j) {
        lemma_found_match(s, j + 1);
    }
}

} // verus!
