use vstd::prelude::*;
use crate::dsn::{WiringV, WireV, PlacedViaV, TextPair};
use crate::reader::quote_directive;
use crate::reimport::{no_directive, directive_at};
use crate::serialise::{
    scan_state, match_close, wiring_text, wire_lines, via_lines, wire_line, via_line, coords_text, net_text,
    find_wiring, section_start, wiring_head, replaced_wiring, last_index, ends_head, directive_quote,
};

verus! {

// ─── Scanning parentheses and quotes ─────────────────────────────────────────

/// One character's effect on the nesting depth and the string mode.
pub open spec fn scan_step(st: (int, bool), c: char) -> (int, bool) {
    if c == '"' {
        (st.0, !st.1)
    } else if c == '(' && !st.1 {
        (st.0 + 1, st.1)
    } else if c == ')' && !st.1 {
        (st.0 - 1, st.1)
    } else {
        st
    }
}

/// The depth and string mode after scanning `x` from `st`.
pub open spec fn scan_from(st: (int, bool), x: Seq<char>) -> (int, bool)
    decreases x.len(),
{
    if x.len() == 0 {
        st
    } else {
        scan_step(scan_from(st, x.drop_last()), x.last())
    }
}

/// The lowest depth met while scanning `x` from `st`.
pub open spec fn low(st: (int, bool), x: Seq<char>) -> int
    decreases x.len(),
{
    if x.len() == 0 {
        st.0
    } else {
        let l = low(st, x.drop_last());
        let d = scan_from(st, x).0;
        if d < l {
            d
        } else {
            l
        }
    }
}

/// Text that neither quotes nor nests.
pub open spec fn plain(x: Seq<char>) -> bool {
    forall|k: int| 0 <= k < x.len() ==> #[trigger] x[k] != '"' && x[k] != '(' && x[k] != ')'
}

proof fn lemma_scan_concat(st: (int, bool), x: Seq<char>, y: Seq<char>)
    ensures
        scan_from(st, x + y) == scan_from(scan_from(st, x), y),
        low(st, x + y) == if low(scan_from(st, x), y) < low(st, x) { low(scan_from(st, x), y) } else { low(st, x) },
    decreases y.len(),
{
    if y.len() == 0 {
        assert(x + y =~= x);
    } else {
        assert((x + y).drop_last() =~= x + y.drop_last());
        lemma_scan_concat(st, x, y.drop_last());
    }
}

proof fn lemma_scan_plain(st: (int, bool), x: Seq<char>)
    requires
        plain(x),
    ensures
        scan_from(st, x) == st,
        low(st, x) == st.0,
    decreases x.len(),
{
    if x.len() > 0 {
        assert(plain(x.drop_last()));
        lemma_scan_plain(st, x.drop_last());
    }
}

proof fn lemma_low_prefix(st: (int, bool), x: Seq<char>, k: int)
    requires
        0 <= k <= x.len(),
    ensures
        low(st, x) <= scan_from(st, x.take(k)).0,
    decreases x.len(),
{
    if k < x.len() {
        assert(x.drop_last().take(k) =~= x.take(k));
        lemma_low_prefix(st, x.drop_last(), k);
    } else {
        assert(x.take(k) =~= x);
        if x.len() > 0 {
            lemma_low_prefix(st, x.drop_last(), 0);
        }
    }
}

proof fn lemma_scan_one(st: (int, bool), c: char)
    ensures
        scan_from(st, seq![c]) == scan_step(st, c),
{
    assert(seq![c].drop_last() =~= Seq::<char>::empty());
    assert(scan_from(st, Seq::<char>::empty()) == st);
}

/// Texts that agree on their first `n` characters agree on the scan up to there.
proof fn lemma_scan_prefix(s: Seq<char>, t: Seq<char>, n: int, i: int)
    requires
        0 <= i <= n,
        n <= s.len(),
        n <= t.len(),
        t.take(n) == s.take(n),
    ensures
        scan_state(t, i) == scan_state(s, i),
    decreases i,
{
    if i > 0 {
        lemma_scan_prefix(s, t, n, i - 1);
        assert(s.take(n)[i - 1] == t.take(n)[i - 1]);
        assert(s.take(n)[i - 1] == s[i - 1]);
        assert(t.take(n)[i - 1] == t[i - 1]);
        if i - 1 >= 14 {
            assert(s.subrange(i - 15, i - 1) =~= t.subrange(i - 15, i - 1)) by {
                assert forall|k: int| 0 <= k < 14 implies #[trigger] s.subrange(i - 15, i - 1)[k] == t.subrange(i - 15, i - 1)[k] by {
                    assert(s.take(n)[i - 15 + k] == t.take(n)[i - 15 + k]);
                    assert(s.take(n)[i - 15 + k] == s[i - 15 + k]);
                    assert(t.take(n)[i - 15 + k] == t[i - 15 + k]);
                    assert(s.subrange(i - 15, i - 1)[k] == s[i - 15 + k]);
                    assert(t.subrange(i - 15, i - 1)[k] == t[i - 15 + k]);
                }
            }
            assert(directive_quote(s, i - 1) == directive_quote(t, i - 1));
        }
    }
}

/// A list written at `a` that closes only at its end is matched there.
proof fn lemma_match_close_segment(u: Seq<char>, a: int, x: Seq<char>)
    requires
        0 <= a,
        a + x.len() <= u.len(),
        u.subrange(a, a + x.len()) == x,
        x.len() >= 1,
        x[0] == '(',
        x.last() == ')',
        scan_from((0, false), x) == (0int, false),
        low((1, false), x.drop_first().drop_last()) >= 1,
    ensures
        match_close(u, a, 0, false) == Some(a + x.len() - 1),
{
    let inner = x.drop_first().drop_last();
    assert(x =~= seq!['('] + inner + seq![')']);
    lemma_scan_concat((0, false), seq!['('], inner);
    lemma_scan_concat((0, false), seq!['('] + inner, seq![')']);
    lemma_scan_one((0, false), '(');
    let mid = scan_from((1, false), inner);
    lemma_scan_one(mid, ')');
    assert(mid == (1int, false));
    assert(inner.take(0) =~= Seq::<char>::empty());
    assert(u[a] == '(') by {
        assert(u.subrange(a, a + x.len())[0] == u[a]);
    }
    assert(u[a + 1 + inner.len()] == ')') by {
        assert(u.subrange(a, a + x.len())[x.len() - 1] == u[a + x.len() - 1]);
    }
    assert(u.subrange(a + 1, a + 1 + inner.len()) =~= inner) by {
        assert forall|k: int| 0 <= k < inner.len() implies u.subrange(a + 1, a + 1 + inner.len())[k] == inner[k] by {
            assert(u.subrange(a, a + x.len())[k + 1] == u[a + 1 + k]);
        }
    }
    lemma_low_prefix((1, false), inner, 0);
    lemma_match_close_walk(u, a + 1, inner, 0);
}

/// Walking through the inside of such a list keeps the match the same.
proof fn lemma_match_close_walk(u: Seq<char>, b: int, inner: Seq<char>, k: int)
    requires
        0 <= b,
        0 <= k <= inner.len(),
        b + inner.len() < u.len(),
        u.subrange(b, b + inner.len()) == inner,
        u[b + inner.len()] == ')',
        scan_from((1, false), inner) == (1int, false),
        low((1, false), inner) >= 1,
    ensures
        match_close(u, b + k, scan_from((1, false), inner.take(k)).0, scan_from((1, false), inner.take(k)).1) == Some(
            b + inner.len(),
        ),
    decreases inner.len() - k,
{
    let st = scan_from((1, false), inner.take(k));
    if k == inner.len() {
        assert(inner.take(k) =~= inner);
    } else {
        let c = inner[k];
        assert(u[b + k] == c) by {
            assert(u.subrange(b, b + inner.len())[k] == u[b + k]);
        }
        assert(inner.take(k + 1).drop_last() =~= inner.take(k));
        assert(inner.take(k + 1).last() == c);
        let st2 = scan_from((1, false), inner.take(k + 1));
        assert(st2 == scan_step(st, c));
        lemma_low_prefix((1, false), inner, k + 1);
        lemma_match_close_walk(u, b, inner, k + 1);
        assert(st2.0 >= 1);
        if c == ')' && !st.1 {
            assert(st.0 - 1 >= 1);
        }
    }
}

// ─── The written section closes at its end ───────────────────────────────────

/// Every name and number of the wiring neither quotes nor nests.
pub open spec fn wiring_plain(w: WiringV) -> bool {
    &&& forall|i: int|
        0 <= i < w.wires.len() ==> {
            let x = #[trigger] w.wires[i];
            &&& plain(x.layer)
            &&& plain(x.width)
            &&& plain(net_text(x.net))
            &&& forall|k: int| 0 <= k < x.path.len() ==> plain((#[trigger] x.path[k]).0) && plain(x.path[k].1)
        }
    &&& forall|i: int|
        0 <= i < w.vias.len() ==> {
            let v = #[trigger] w.vias[i];
            plain(v.padstack) && plain(v.x) && plain(v.y) && plain(net_text(v.net))
        }
}

proof fn lemma_coords_plain(path: Seq<TextPair>)
    requires
        forall|k: int| 0 <= k < path.len() ==> plain((#[trigger] path[k]).0) && plain(path[k].1),
    ensures
        plain(coords_text(path)),
    decreases path.len(),
{
    reveal_strlit(" ");
    if path.len() > 0 {
        lemma_coords_plain(path.drop_last());
        let p = path.last();
        assert(plain(p.0) && plain(p.1)) by {
            assert(path[path.len() - 1] == p);
        }
        let a = coords_text(path.drop_last());
        let t = a + " "@ + p.0 + " "@ + p.1;
        assert forall|k: int| 0 <= k < t.len() implies #[trigger] t[k] != '"' && t[k] != '(' && t[k] != ')' by {
            if k < a.len() {
                assert(t[k] == a[k]);
            } else if k == a.len() {
            } else if k < a.len() + 1 + p.0.len() {
                assert(t[k] == p.0[k - a.len() - 1]);
            } else if k == a.len() + 1 + p.0.len() {
            } else {
                assert(t[k] == p.1[k - a.len() - 2 - p.0.len()]);
            }
        }
    }
}

proof fn lemma_scan_takes(st: (int, bool), x: Seq<char>)
    ensures
        scan_from(st, x.take(0)) == st,
        low(st, x.take(0)) == st.0,
        forall|k: int|
            0 < k <= x.len() ==> scan_from(st, #[trigger] x.take(k)) == scan_step(scan_from(st, x.take(k - 1)), x[k - 1])
                && low(st, x.take(k)) == if scan_from(st, x.take(k)).0 < low(st, x.take(k - 1)) {
                scan_from(st, x.take(k)).0
            } else {
                low(st, x.take(k - 1))
            },
{
    assert(x.take(0) =~= Seq::<char>::empty());
    assert forall|k: int| 0 < k <= x.len() implies scan_from(st, #[trigger] x.take(k)) == scan_step(scan_from(st, x.take(k - 1)), x[k - 1])
        && low(st, x.take(k)) == if scan_from(st, x.take(k)).0 < low(st, x.take(k - 1)) {
        scan_from(st, x.take(k)).0
    } else {
        low(st, x.take(k - 1))
    } by {
        assert(x.take(k).drop_last() =~= x.take(k - 1));
        assert(x.take(k).last() == x[k - 1]);
    }
}

/// How the fixed pieces of a written line nest.
proof fn lemma_pieces()
    ensures
        scan_from((1int, false), "  (wire "@) == (2int, false),
        low((1int, false), "  (wire "@) == 1,
        scan_from((2int, false), "(path "@) == (3int, false),
        low((2int, false), "(path "@) == 2,
        scan_from((3int, false), ")"@) == (2int, false),
        low((3int, false), ")"@) == 2,
        scan_from((2int, false), " (net \""@) == (3int, true),
        low((2int, false), " (net \""@) == 2,
        scan_from((3int, true), "\") (type route))\n"@) == (1int, false),
        low((3int, true), "\") (type route))\n"@) == 1,
        scan_from((1int, false), "  (via \""@) == (2int, true),
        low((1int, false), "  (via \""@) == 1,
        scan_from((2int, true), "\" "@) == (2int, false),
        low((2int, true), "\" "@) == 2,
        plain(" "@),
{
    {
        reveal_strlit("  (wire ");
        let x = "  (wire "@;
        assert(x.len() == 8);
        lemma_scan_takes((1int, false), x);
        assert(x.take(0) =~= Seq::<char>::empty());
        assert(x[0] == ' ');
        assert(scan_from((1int, false), x.take(1)) == (1int, false) && low((1int, false), x.take(1)) == 1);
        assert(x[1] == ' ');
        assert(scan_from((1int, false), x.take(2)) == (1int, false) && low((1int, false), x.take(2)) == 1);
        assert(x[2] == '(');
        assert(scan_from((1int, false), x.take(3)) == (2int, false) && low((1int, false), x.take(3)) == 1);
        assert(x[3] == 'w');
        assert(scan_from((1int, false), x.take(4)) == (2int, false) && low((1int, false), x.take(4)) == 1);
        assert(x[4] == 'i');
        assert(scan_from((1int, false), x.take(5)) == (2int, false) && low((1int, false), x.take(5)) == 1);
        assert(x[5] == 'r');
        assert(scan_from((1int, false), x.take(6)) == (2int, false) && low((1int, false), x.take(6)) == 1);
        assert(x[6] == 'e');
        assert(scan_from((1int, false), x.take(7)) == (2int, false) && low((1int, false), x.take(7)) == 1);
        assert(x[7] == ' ');
        assert(scan_from((1int, false), x.take(8)) == (2int, false) && low((1int, false), x.take(8)) == 1);
        assert(x.take(8) =~= x);
    }
    {
        reveal_strlit("(path ");
        let x = "(path "@;
        assert(x.len() == 6);
        lemma_scan_takes((2int, false), x);
        assert(x.take(0) =~= Seq::<char>::empty());
        assert(x[0] == '(');
        assert(scan_from((2int, false), x.take(1)) == (3int, false) && low((2int, false), x.take(1)) == 2);
        assert(x[1] == 'p');
        assert(scan_from((2int, false), x.take(2)) == (3int, false) && low((2int, false), x.take(2)) == 2);
        assert(x[2] == 'a');
        assert(scan_from((2int, false), x.take(3)) == (3int, false) && low((2int, false), x.take(3)) == 2);
        assert(x[3] == 't');
        assert(scan_from((2int, false), x.take(4)) == (3int, false) && low((2int, false), x.take(4)) == 2);
        assert(x[4] == 'h');
        assert(scan_from((2int, false), x.take(5)) == (3int, false) && low((2int, false), x.take(5)) == 2);
        assert(x[5] == ' ');
        assert(scan_from((2int, false), x.take(6)) == (3int, false) && low((2int, false), x.take(6)) == 2);
        assert(x.take(6) =~= x);
    }
    {
        reveal_strlit(")");
        let x = ")"@;
        assert(x.len() == 1);
        lemma_scan_takes((3int, false), x);
        assert(x.take(0) =~= Seq::<char>::empty());
        assert(x[0] == ')');
        assert(scan_from((3int, false), x.take(1)) == (2int, false) && low((3int, false), x.take(1)) == 2);
        assert(x.take(1) =~= x);
    }
    {
        reveal_strlit(" (net \"");
        let x = " (net \""@;
        assert(x.len() == 7);
        lemma_scan_takes((2int, false), x);
        assert(x.take(0) =~= Seq::<char>::empty());
        assert(x[0] == ' ');
        assert(scan_from((2int, false), x.take(1)) == (2int, false) && low((2int, false), x.take(1)) == 2);
        assert(x[1] == '(');
        assert(scan_from((2int, false), x.take(2)) == (3int, false) && low((2int, false), x.take(2)) == 2);
        assert(x[2] == 'n');
        assert(scan_from((2int, false), x.take(3)) == (3int, false) && low((2int, false), x.take(3)) == 2);
        assert(x[3] == 'e');
        assert(scan_from((2int, false), x.take(4)) == (3int, false) && low((2int, false), x.take(4)) == 2);
        assert(x[4] == 't');
        assert(scan_from((2int, false), x.take(5)) == (3int, false) && low((2int, false), x.take(5)) == 2);
        assert(x[5] == ' ');
        assert(scan_from((2int, false), x.take(6)) == (3int, false) && low((2int, false), x.take(6)) == 2);
        assert(x[6] == '"');
        assert(scan_from((2int, false), x.take(7)) == (3int, true) && low((2int, false), x.take(7)) == 2);
        assert(x.take(7) =~= x);
    }
    {
        reveal_strlit("\") (type route))\n");
        let x = "\") (type route))\n"@;
        assert(x.len() == 17);
        lemma_scan_takes((3int, true), x);
        assert(x.take(0) =~= Seq::<char>::empty());
        assert(x[0] == '"');
        assert(scan_from((3int, true), x.take(1)) == (3int, false) && low((3int, true), x.take(1)) == 3);
        assert(x[1] == ')');
        assert(scan_from((3int, true), x.take(2)) == (2int, false) && low((3int, true), x.take(2)) == 2);
        assert(x[2] == ' ');
        assert(scan_from((3int, true), x.take(3)) == (2int, false) && low((3int, true), x.take(3)) == 2);
        assert(x[3] == '(');
        assert(scan_from((3int, true), x.take(4)) == (3int, false) && low((3int, true), x.take(4)) == 2);
        assert(x[4] == 't');
        assert(scan_from((3int, true), x.take(5)) == (3int, false) && low((3int, true), x.take(5)) == 2);
        assert(x[5] == 'y');
        assert(scan_from((3int, true), x.take(6)) == (3int, false) && low((3int, true), x.take(6)) == 2);
        assert(x[6] == 'p');
        assert(scan_from((3int, true), x.take(7)) == (3int, false) && low((3int, true), x.take(7)) == 2);
        assert(x[7] == 'e');
        assert(scan_from((3int, true), x.take(8)) == (3int, false) && low((3int, true), x.take(8)) == 2);
        assert(x[8] == ' ');
        assert(scan_from((3int, true), x.take(9)) == (3int, false) && low((3int, true), x.take(9)) == 2);
        assert(x[9] == 'r');
        assert(scan_from((3int, true), x.take(10)) == (3int, false) && low((3int, true), x.take(10)) == 2);
        assert(x[10] == 'o');
        assert(scan_from((3int, true), x.take(11)) == (3int, false) && low((3int, true), x.take(11)) == 2);
        assert(x[11] == 'u');
        assert(scan_from((3int, true), x.take(12)) == (3int, false) && low((3int, true), x.take(12)) == 2);
        assert(x[12] == 't');
        assert(scan_from((3int, true), x.take(13)) == (3int, false) && low((3int, true), x.take(13)) == 2);
        assert(x[13] == 'e');
        assert(scan_from((3int, true), x.take(14)) == (3int, false) && low((3int, true), x.take(14)) == 2);
        assert(x[14] == ')');
        assert(scan_from((3int, true), x.take(15)) == (2int, false) && low((3int, true), x.take(15)) == 2);
        assert(x[15] == ')');
        assert(scan_from((3int, true), x.take(16)) == (1int, false) && low((3int, true), x.take(16)) == 1);
        assert(x[16] == '\n');
        assert(scan_from((3int, true), x.take(17)) == (1int, false) && low((3int, true), x.take(17)) == 1);
        assert(x.take(17) =~= x);
    }
    {
        reveal_strlit("  (via \"");
        let x = "  (via \""@;
        assert(x.len() == 8);
        lemma_scan_takes((1int, false), x);
        assert(x.take(0) =~= Seq::<char>::empty());
        assert(x[0] == ' ');
        assert(scan_from((1int, false), x.take(1)) == (1int, false) && low((1int, false), x.take(1)) == 1);
        assert(x[1] == ' ');
        assert(scan_from((1int, false), x.take(2)) == (1int, false) && low((1int, false), x.take(2)) == 1);
        assert(x[2] == '(');
        assert(scan_from((1int, false), x.take(3)) == (2int, false) && low((1int, false), x.take(3)) == 1);
        assert(x[3] == 'v');
        assert(scan_from((1int, false), x.take(4)) == (2int, false) && low((1int, false), x.take(4)) == 1);
        assert(x[4] == 'i');
        assert(scan_from((1int, false), x.take(5)) == (2int, false) && low((1int, false), x.take(5)) == 1);
        assert(x[5] == 'a');
        assert(scan_from((1int, false), x.take(6)) == (2int, false) && low((1int, false), x.take(6)) == 1);
        assert(x[6] == ' ');
        assert(scan_from((1int, false), x.take(7)) == (2int, false) && low((1int, false), x.take(7)) == 1);
        assert(x[7] == '"');
        assert(scan_from((1int, false), x.take(8)) == (2int, true) && low((1int, false), x.take(8)) == 1);
        assert(x.take(8) =~= x);
    }
    {
        reveal_strlit("\" ");
        let x = "\" "@;
        assert(x.len() == 2);
        lemma_scan_takes((2int, true), x);
        assert(x.take(0) =~= Seq::<char>::empty());
        assert(x[0] == '"');
        assert(scan_from((2int, true), x.take(1)) == (2int, false) && low((2int, true), x.take(1)) == 2);
        assert(x[1] == ' ');
        assert(scan_from((2int, true), x.take(2)) == (2int, false) && low((2int, true), x.take(2)) == 2);
        assert(x.take(2) =~= x);
    }
    reveal_strlit(" ");
}

/// A written wire line, scanned inside the section, comes back to the
/// section's depth without leaving it.
proof fn lemma_wire_line(w: WireV)
    requires
        plain(w.layer),
        plain(w.width),
        plain(net_text(w.net)),
        forall|k: int| 0 <= k < w.path.len() ==> plain((#[trigger] w.path[k]).0) && plain(w.path[k].1),
    ensures
        scan_from((1, false), wire_line(w)) == (1int, false),
        low((1, false), wire_line(w)) >= 1,
{
    lemma_pieces();
    lemma_coords_plain(w.path);
    let s0 = (1int, false);
    let p1 = "  (wire "@;
    let p2 = p1 + "(path "@;
    lemma_scan_concat(s0, p1, "(path "@);
    let p3 = p2 + w.layer;
    lemma_scan_concat(s0, p2, w.layer);
    lemma_scan_plain((3int, false), w.layer);
    let p4 = p3 + " "@;
    lemma_scan_concat(s0, p3, " "@);
    lemma_scan_plain((3int, false), " "@);
    let p5 = p4 + w.width;
    lemma_scan_concat(s0, p4, w.width);
    lemma_scan_plain((3int, false), w.width);
    let p6 = p5 + coords_text(w.path);
    lemma_scan_concat(s0, p5, coords_text(w.path));
    lemma_scan_plain((3int, false), coords_text(w.path));
    let p7 = p6 + ")"@;
    lemma_scan_concat(s0, p6, ")"@);
    let p8 = p7 + " (net \""@;
    lemma_scan_concat(s0, p7, " (net \""@);
    let p9 = p8 + net_text(w.net);
    lemma_scan_concat(s0, p8, net_text(w.net));
    lemma_scan_plain((3int, true), net_text(w.net));
    let p10 = p9 + "\") (type route))\n"@;
    lemma_scan_concat(s0, p9, "\") (type route))\n"@);
    assert(wire_line(w) == p10);
}

/// The same for a written via line.
proof fn lemma_via_line(v: PlacedViaV)
    requires
        plain(v.padstack),
        plain(v.x),
        plain(v.y),
        plain(net_text(v.net)),
    ensures
        scan_from((1, false), via_line(v)) == (1int, false),
        low((1, false), via_line(v)) >= 1,
{
    lemma_pieces();
    let s0 = (1int, false);
    let p1 = "  (via \""@;
    let p2 = p1 + v.padstack;
    lemma_scan_concat(s0, p1, v.padstack);
    lemma_scan_plain((2int, true), v.padstack);
    let p3 = p2 + "\" "@;
    lemma_scan_concat(s0, p2, "\" "@);
    let p4 = p3 + v.x;
    lemma_scan_concat(s0, p3, v.x);
    lemma_scan_plain((2int, false), v.x);
    let p5 = p4 + " "@;
    lemma_scan_concat(s0, p4, " "@);
    lemma_scan_plain((2int, false), " "@);
    let p6 = p5 + v.y;
    lemma_scan_concat(s0, p5, v.y);
    lemma_scan_plain((2int, false), v.y);
    let p7 = p6 + " (net \""@;
    lemma_scan_concat(s0, p6, " (net \""@);
    let p8 = p7 + net_text(v.net);
    lemma_scan_concat(s0, p7, net_text(v.net));
    lemma_scan_plain((3int, true), net_text(v.net));
    let p9 = p8 + "\") (type route))\n"@;
    lemma_scan_concat(s0, p8, "\") (type route))\n"@);
    assert(via_line(v) == p9);
}

proof fn lemma_wire_lines(ws: Seq<WireV>)
    requires
        forall|i: int|
            0 <= i < ws.len() ==> {
                let x = #[trigger] ws[i];
                &&& plain(x.layer)
                &&& plain(x.width)
                &&& plain(net_text(x.net))
                &&& forall|k: int| 0 <= k < x.path.len() ==> plain((#[trigger] x.path[k]).0) && plain(x.path[k].1)
            },
    ensures
        scan_from((1, false), wire_lines(ws)) == (1int, false),
        low((1, false), wire_lines(ws)) >= 1,
    decreases ws.len(),
{
    if ws.len() == 0 {
        assert(wire_lines(ws) =~= Seq::<char>::empty());
    } else {
        let pre = ws.drop_last();
        assert forall|i: int| 0 <= i < pre.len() implies {
            let x = #[trigger] pre[i];
            &&& plain(x.layer)
            &&& plain(x.width)
            &&& plain(net_text(x.net))
            &&& forall|k: int| 0 <= k < x.path.len() ==> plain((#[trigger] x.path[k]).0) && plain(x.path[k].1)
        } by {
            assert(pre[i] == ws[i]);
        }
        lemma_wire_lines(pre);
        let w = ws.last();
        assert(w == ws[ws.len() - 1]);
        let line = if w.path.len() >= 2 { wire_line(w) } else { Seq::<char>::empty() };
        if w.path.len() >= 2 {
            lemma_wire_line(w);
        } else {
            assert(scan_from((1int, false), line) == (1int, false));
        }
        lemma_scan_concat((1, false), wire_lines(pre), line);
        assert(wire_lines(ws) == wire_lines(pre) + line);
    }
}

proof fn lemma_via_lines(vs: Seq<PlacedViaV>)
    requires
        forall|i: int|
            0 <= i < vs.len() ==> {
                let v = #[trigger] vs[i];
                plain(v.padstack) && plain(v.x) && plain(v.y) && plain(net_text(v.net))
            },
    ensures
        scan_from((1, false), via_lines(vs)) == (1int, false),
        low((1, false), via_lines(vs)) >= 1,
    decreases vs.len(),
{
    if vs.len() == 0 {
        assert(via_lines(vs) =~= Seq::<char>::empty());
    } else {
        let pre = vs.drop_last();
        assert forall|i: int| 0 <= i < pre.len() implies {
            let v = #[trigger] pre[i];
            plain(v.padstack) && plain(v.x) && plain(v.y) && plain(net_text(v.net))
        } by {
            assert(pre[i] == vs[i]);
        }
        lemma_via_lines(pre);
        assert(vs.last() == vs[vs.len() - 1]);
        lemma_via_line(vs.last());
        lemma_scan_concat((1, false), via_lines(pre), via_line(vs.last()));
    }
}

/// The written section, wherever it stands, closes at its own last parenthesis.
proof fn lemma_section_closes(u: Seq<char>, a: int, w: WiringV)
    requires
        wiring_plain(w),
        0 <= a,
        a + wiring_text(w).len() <= u.len(),
        u.subrange(a, a + wiring_text(w).len()) == wiring_text(w),
    ensures
        match_close(u, a, 0, false) == Some(a + wiring_text(w).len() - 1),
{
    reveal_strlit("(wiring\n");
    reveal_strlit("wiring\n");
    reveal_strlit(")");
    lemma_wire_lines(w.wires);
    lemma_via_lines(w.vias);
    let tx = wiring_text(w);
    let head = "wiring\n"@;
    assert(plain(head)) by {
        assert(head =~= seq!['w', 'i', 'r', 'i', 'n', 'g', '\n']);
    }
    assert("(wiring\n"@ =~= seq!['('] + head);
    let wl = wire_lines(w.wires);
    let vl = via_lines(w.vias);
    let inner = head + wl + vl;
    assert(tx =~= seq!['('] + inner + seq![')']);
    assert(tx.drop_first().drop_last() =~= inner);
    lemma_scan_plain((1, false), head);
    lemma_scan_concat((1, false), head, wl);
    lemma_scan_concat((1, false), head + wl, vl);
    lemma_scan_one((0, false), '(');
    lemma_scan_concat((0, false), seq!['('], inner);
    lemma_scan_one((1, false), ')');
    lemma_scan_concat((0, false), seq!['('] + inner, seq![')']);
    lemma_match_close_segment(u, a, tx);
}

// ─── Writing the same wiring twice ───────────────────────────────────────────

proof fn lemma_last_index_is(s: Seq<char>, c: char)
    ensures
        last_index(s, c) matches Some(p) ==> 0 <= p < s.len() && s[p] == c,
    decreases s.len(),
{
    if s.len() > 0 && s.last() != c {
        lemma_last_index_is(s.drop_last(), c);
        assert(s.drop_last().len() < s.len());
    }
}

proof fn lemma_found(s: Seq<char>, j: int)
    requires
        find_wiring(s, j) is Some,
        0 <= j,
    ensures
        j <= (find_wiring(s, j)->0).0 < s.len(),
        section_start(s, (find_wiring(s, j)->0).0),
        match_close(s, (find_wiring(s, j)->0).0, 0, false) == Some((find_wiring(s, j)->0).1),
        forall|i: int| j <= i < (find_wiring(s, j)->0).0 ==> !#[trigger] section_start(s, i),
    decreases s.len() - j,
{
    if !section_start(s, j) {
        lemma_found(s, j + 1);
    }
}

proof fn lemma_first_section(t: Seq<char>, a: int, b: int, j: int)
    requires
        0 <= j <= a < t.len(),
        forall|i: int| j <= i < a ==> !#[trigger] section_start(t, i),
        section_start(t, a),
        match_close(t, a, 0, false) == Some(b),
    ensures
        find_wiring(t, j) == Some((a, b)),
    decreases a - j,
{
    if j < a {
        lemma_first_section(t, a, b, j + 1);
    }
}

/// A `(wiring` head before where the new text starts stood in the old text already.
proof fn lemma_head_before(s: Seq<char>, t: Seq<char>, n: int, i: int)
    requires
        0 <= i < n < s.len(),
        n < t.len(),
        t.take(n) == s.take(n),
        t[n] == '(' || (t[n] == '\n' && s[n] == ')'),
        wiring_head(t, i),
    ensures
        wiring_head(s, i),
{
    reveal_strlit("(wiring");
    let h = "(wiring"@;
    assert(h =~= seq!['(', 'w', 'i', 'r', 'i', 'n', 'g']);
    assert(t.subrange(i, i + 7) == h);
    if i + 7 < n {
        assert(s.subrange(i, i + 7) =~= t.subrange(i, i + 7)) by {
            assert forall|k: int| 0 <= k < 7 implies #[trigger] s.subrange(i, i + 7)[k] == t.subrange(i, i + 7)[k] by {
                assert(s.take(n)[i + k] == t.take(n)[i + k]);
                assert(s.take(n)[i + k] == s[i + k]);
                assert(t.take(n)[i + k] == t[i + k]);
                assert(s.subrange(i, i + 7)[k] == s[i + k]);
                assert(t.subrange(i, i + 7)[k] == t[i + k]);
            }
        }
        assert(s.take(n)[i + 7] == t.take(n)[i + 7]);
        assert(s.take(n)[i + 7] == s[i + 7]);
        assert(t.take(n)[i + 7] == t[i + 7]);
    } else if i + 7 == n {
        assert(s.subrange(i, i + 7) =~= t.subrange(i, i + 7)) by {
            assert forall|k: int| 0 <= k < 7 implies #[trigger] s.subrange(i, i + 7)[k] == t.subrange(i, i + 7)[k] by {
                assert(s.take(n)[i + k] == t.take(n)[i + k]);
                assert(s.take(n)[i + k] == s[i + k]);
                assert(t.take(n)[i + k] == t[i + k]);
                assert(s.subrange(i, i + 7)[k] == s[i + k]);
                assert(t.subrange(i, i + 7)[k] == t[i + k]);
            }
        }
        assert(ends_head(t[n]));
    } else {
        assert(t.subrange(i, i + 7)[n - i] == t[n]);
        assert(h[n - i] != '(' && h[n - i] != '\n');
    }
}

/// The written text's only wiring section is the one just written.
proof fn lemma_written_found(s: Seq<char>, t: Seq<char>, n: int, a2: int, w: WiringV)
    requires
        wiring_plain(w),
        0 <= n < s.len(),
        n <= a2,
        a2 == n || (a2 == n + 1 && t[n] == '\n' && s[n] == ')'),
        a2 + wiring_text(w).len() <= t.len(),
        t.take(n) == s.take(n),
        t.subrange(a2, a2 + wiring_text(w).len()) == wiring_text(w),
        scan_state(s, n) == (1int, false),
        forall|i: int| 0 <= i < n ==> !#[trigger] wiring_head(s, i),
    ensures
        find_wiring(t, 0) == Some((a2, a2 + wiring_text(w).len() - 1)),
{
    reveal_strlit("(wiring\n");
    reveal_strlit("(wiring");
    reveal_strlit(")");
    let tx = wiring_text(w);
    assert("(wiring\n"@ =~= seq!['(', 'w', 'i', 'r', 'i', 'n', 'g', '\n']);
    assert(tx =~= "(wiring\n"@ + (wire_lines(w.wires) + via_lines(w.vias) + ")"@));
    assert forall|k: int| 0 <= k < 8 implies #[trigger] tx[k] == "(wiring\n"@[k] by {}
    assert(tx[0] == '(') by {
        assert(t.subrange(a2, a2 + tx.len())[0] == tx[0]);
    }
    assert forall|k: int| 0 <= k < 8 implies t[a2 + k] == #[trigger] tx[k] by {
        assert(t.subrange(a2, a2 + tx.len())[k] == t[a2 + k]);
    }
    assert(t[n] == '(' || (t[n] == '\n' && s[n] == ')'));
    // no section starts before the written one
    assert forall|i: int| 0 <= i < a2 implies !#[trigger] section_start(t, i) by {
        if i < n {
            if wiring_head(t, i) {
                lemma_head_before(s, t, n, i);
            }
        } else {
            assert(t[i] == '\n');
        }
    }
    // the written one starts a section
    lemma_scan_prefix(s, t, n, n);
    assert(t.subrange(a2, a2 + 7) =~= "(wiring"@);
    assert(tx[7] == "(wiring\n"@[7]);
    assert(tx[7] == '\n');
    assert(t[a2 + 7] == tx[7]);
    assert(ends_head(t[a2 + 7]));
    if a2 == n + 1 {
        assert(scan_state(t, n + 1) == scan_state(t, n));
    }
    assert(scan_state(t, a2) == (1int, false));
    lemma_section_closes(t, a2, w);
    lemma_first_section(t, a2, a2 + tx.len() - 1, 0);
}

/// Writing the same wiring a second time changes nothing: the second write
/// finds the section that the first one wrote and puts the same text there
/// (where the wiring's names and numbers hold no double quote and no
/// parenthesis, the text holds no `(wiring` head but its own section's, and,
/// without a section, its last `)` closes its root list).
pub proof fn law_write_wiring_idempotent(s: Seq<char>, w: WiringV)
    requires
        wiring_plain(w),
        forall|i: int| #[trigger] wiring_head(s, i) ==> (find_wiring(s, 0) matches Some((a, b)) && i == a),
        find_wiring(s, 0) is None ==> (last_index(s, ')') matches Some(p) && scan_state(s, p) == (1int, false)),
    ensures
        replaced_wiring(replaced_wiring(s, wiring_text(w)), wiring_text(w)) == replaced_wiring(s, wiring_text(w)),
{
    reveal_strlit("\n");
    reveal_strlit(")");
    let tx = wiring_text(w);
    let t = replaced_wiring(s, tx);
    match find_wiring(s, 0) {
        Some((a, b)) => {
            lemma_found(s, 0);
            crate::serialise::lemma_find_wiring_bounds(s, 0);
            assert(t == s.take(a) + tx + s.skip(b + 1));
            assert(t.take(a) =~= s.take(a));
            assert(t.subrange(a, a + tx.len()) =~= tx);
            assert forall|i: int| 0 <= i < a implies !#[trigger] wiring_head(s, i) by {
                if wiring_head(s, i) {
                    assert(i == a);
                }
            }
            lemma_written_found(s, t, a, a, w);
            assert(t.take(a) + tx + t.skip(a + tx.len()) =~= t);
        },
        None => {
            lemma_last_index_is(s, ')');
            let p = last_index(s, ')')->0;
            assert(t == s.take(p) + "\n"@ + tx + "\n"@ + ")"@);
            assert(t.take(p) =~= s.take(p));
            assert(t[p] == '\n');
            assert(t.subrange(p + 1, p + 1 + tx.len()) =~= tx);
            lemma_written_found(s, t, p, p + 1, w);
            assert(t.take(p + 1) + tx + t.skip(p + 1 + tx.len()) =~= t);
        },
    }
}


// ─── The written section holds no quote directive ────────────────────────────

/// No `(` is followed by `s`.
pub open spec fn no_open_s(x: Seq<char>) -> bool {
    forall|k: int| 0 <= k < x.len() - 1 && x[k] == '(' ==> #[trigger] x[k + 1] != 's'
}

/// The text ends with `(`.
pub open spec fn ends_open(x: Seq<char>) -> bool {
    x.len() > 0 && x.last() == '('
}

proof fn lemma_open_s_concat(x: Seq<char>, y: Seq<char>)
    requires
        no_open_s(x),
        no_open_s(y),
        !ends_open(x),
        !ends_open(y),
    ensures
        no_open_s(x + y),
        !ends_open(x + y),
{
    let z = x + y;
    assert forall|k: int| 0 <= k < z.len() - 1 && z[k] == '(' implies #[trigger] z[k + 1] != 's' by {
        if k + 1 < x.len() {
            assert(z[k] == x[k] && z[k + 1] == x[k + 1]);
        } else if k + 1 == x.len() {
            assert(z[k] == x.last());
        } else {
            let kk = k - x.len();
            assert(z[k] == y[kk]);
            assert(z[k + 1] == y[kk + 1]);
        }
    }
    if y.len() == 0 {
        assert(z =~= x);
    } else {
        assert(z.last() == y.last());
    }
}

proof fn lemma_open_s_plain(x: Seq<char>)
    requires
        plain(x),
    ensures
        no_open_s(x),
        !ends_open(x),
{
    if x.len() > 0 {
        assert(x.last() == x[x.len() - 1]);
    }
}

proof fn lemma_open_s_pieces()
    ensures
        no_open_s("(wiring\n"@) && !ends_open("(wiring\n"@),
        no_open_s("  (wire "@) && !ends_open("  (wire "@),
        no_open_s("(path "@) && !ends_open("(path "@),
        no_open_s(" "@) && !ends_open(" "@),
        no_open_s(")"@) && !ends_open(")"@),
        no_open_s(" (net \""@) && !ends_open(" (net \""@),
        no_open_s("\") (type route))\n"@) && !ends_open("\") (type route))\n"@),
        no_open_s("  (via \""@) && !ends_open("  (via \""@),
        no_open_s("\" "@) && !ends_open("\" "@),
{
    {
        reveal_strlit("(wiring\n");
        let x = "(wiring\n"@;
        assert(x =~= seq!['(', 'w', 'i', 'r', 'i', 'n', 'g', '\n']);
        assert forall|k: int| 0 <= k < x.len() - 1 && x[k] == '(' implies #[trigger] x[k + 1] != 's' by { if k == 0 { assert(x[0] == '('); } else if k == 1 { assert(x[1] == 'w'); } else if k == 2 { assert(x[2] == 'i'); } else if k == 3 { assert(x[3] == 'r'); } else if k == 4 { assert(x[4] == 'i'); } else if k == 5 { assert(x[5] == 'n'); } else if k == 6 { assert(x[6] == 'g'); } else if k == 7 { assert(x[7] == '\n'); } }
        assert(x.last() == '\n');
    }
    {
        reveal_strlit("  (wire ");
        let x = "  (wire "@;
        assert(x =~= seq![' ', ' ', '(', 'w', 'i', 'r', 'e', ' ']);
        assert forall|k: int| 0 <= k < x.len() - 1 && x[k] == '(' implies #[trigger] x[k + 1] != 's' by { if k == 0 { assert(x[0] == ' '); } else if k == 1 { assert(x[1] == ' '); } else if k == 2 { assert(x[2] == '('); } else if k == 3 { assert(x[3] == 'w'); } else if k == 4 { assert(x[4] == 'i'); } else if k == 5 { assert(x[5] == 'r'); } else if k == 6 { assert(x[6] == 'e'); } else if k == 7 { assert(x[7] == ' '); } }
        assert(x.last() == ' ');
    }
    {
        reveal_strlit("(path ");
        let x = "(path "@;
        assert(x =~= seq!['(', 'p', 'a', 't', 'h', ' ']);
        assert forall|k: int| 0 <= k < x.len() - 1 && x[k] == '(' implies #[trigger] x[k + 1] != 's' by { if k == 0 { assert(x[0] == '('); } else if k == 1 { assert(x[1] == 'p'); } else if k == 2 { assert(x[2] == 'a'); } else if k == 3 { assert(x[3] == 't'); } else if k == 4 { assert(x[4] == 'h'); } else if k == 5 { assert(x[5] == ' '); } }
        assert(x.last() == ' ');
    }
    {
        reveal_strlit(" ");
        let x = " "@;
        assert(x =~= seq![' ']);
        assert forall|k: int| 0 <= k < x.len() - 1 && x[k] == '(' implies #[trigger] x[k + 1] != 's' by { if k == 0 { assert(x[0] == ' '); } }
        assert(x.last() == ' ');
    }
    {
        reveal_strlit(")");
        let x = ")"@;
        assert(x =~= seq![')']);
        assert forall|k: int| 0 <= k < x.len() - 1 && x[k] == '(' implies #[trigger] x[k + 1] != 's' by { if k == 0 { assert(x[0] == ')'); } }
        assert(x.last() == ')');
    }
    {
        reveal_strlit(" (net \"");
        let x = " (net \""@;
        assert(x =~= seq![' ', '(', 'n', 'e', 't', ' ', '"']);
        assert forall|k: int| 0 <= k < x.len() - 1 && x[k] == '(' implies #[trigger] x[k + 1] != 's' by { if k == 0 { assert(x[0] == ' '); } else if k == 1 { assert(x[1] == '('); } else if k == 2 { assert(x[2] == 'n'); } else if k == 3 { assert(x[3] == 'e'); } else if k == 4 { assert(x[4] == 't'); } else if k == 5 { assert(x[5] == ' '); } else if k == 6 { assert(x[6] == '"'); } }
        assert(x.last() == '"');
    }
    {
        reveal_strlit("\") (type route))\n");
        let x = "\") (type route))\n"@;
        assert(x =~= seq!['"', ')', ' ', '(', 't', 'y', 'p', 'e', ' ', 'r', 'o', 'u', 't', 'e', ')', ')', '\n']);
        assert forall|k: int| 0 <= k < x.len() - 1 && x[k] == '(' implies #[trigger] x[k + 1] != 's' by { if k == 0 { assert(x[0] == '"'); } else if k == 1 { assert(x[1] == ')'); } else if k == 2 { assert(x[2] == ' '); } else if k == 3 { assert(x[3] == '('); } else if k == 4 { assert(x[4] == 't'); } else if k == 5 { assert(x[5] == 'y'); } else if k == 6 { assert(x[6] == 'p'); } else if k == 7 { assert(x[7] == 'e'); } else if k == 8 { assert(x[8] == ' '); } else if k == 9 { assert(x[9] == 'r'); } else if k == 10 { assert(x[10] == 'o'); } else if k == 11 { assert(x[11] == 'u'); } else if k == 12 { assert(x[12] == 't'); } else if k == 13 { assert(x[13] == 'e'); } else if k == 14 { assert(x[14] == ')'); } else if k == 15 { assert(x[15] == ')'); } else if k == 16 { assert(x[16] == '\n'); } }
        assert(x.last() == '\n');
    }
    {
        reveal_strlit("  (via \"");
        let x = "  (via \""@;
        assert(x =~= seq![' ', ' ', '(', 'v', 'i', 'a', ' ', '"']);
        assert forall|k: int| 0 <= k < x.len() - 1 && x[k] == '(' implies #[trigger] x[k + 1] != 's' by { if k == 0 { assert(x[0] == ' '); } else if k == 1 { assert(x[1] == ' '); } else if k == 2 { assert(x[2] == '('); } else if k == 3 { assert(x[3] == 'v'); } else if k == 4 { assert(x[4] == 'i'); } else if k == 5 { assert(x[5] == 'a'); } else if k == 6 { assert(x[6] == ' '); } else if k == 7 { assert(x[7] == '"'); } }
        assert(x.last() == '"');
    }
    {
        reveal_strlit("\" ");
        let x = "\" "@;
        assert(x =~= seq!['"', ' ']);
        assert forall|k: int| 0 <= k < x.len() - 1 && x[k] == '(' implies #[trigger] x[k + 1] != 's' by { if k == 0 { assert(x[0] == '"'); } else if k == 1 { assert(x[1] == ' '); } }
        assert(x.last() == ' ');
    }
}

proof fn lemma_open_s_wire(w: WireV)
    requires
        plain(w.layer),
        plain(w.width),
        plain(net_text(w.net)),
        forall|k: int| 0 <= k < w.path.len() ==> plain((#[trigger] w.path[k]).0) && plain(w.path[k].1),
    ensures
        no_open_s(wire_line(w)),
        !ends_open(wire_line(w)),
{
    lemma_open_s_pieces();
    lemma_coords_plain(w.path);
    lemma_open_s_plain(w.layer);
    lemma_open_s_plain(w.width);
    lemma_open_s_plain(coords_text(w.path));
    lemma_open_s_plain(net_text(w.net));
    let p1 = "  (wire "@;
    let p2 = p1 + "(path "@;
    lemma_open_s_concat(p1, "(path "@);
    let p3 = p2 + w.layer;
    lemma_open_s_concat(p2, w.layer);
    let p4 = p3 + " "@;
    lemma_open_s_concat(p3, " "@);
    let p5 = p4 + w.width;
    lemma_open_s_concat(p4, w.width);
    let p6 = p5 + coords_text(w.path);
    lemma_open_s_concat(p5, coords_text(w.path));
    let p7 = p6 + ")"@;
    lemma_open_s_concat(p6, ")"@);
    let p8 = p7 + " (net \""@;
    lemma_open_s_concat(p7, " (net \""@);
    let p9 = p8 + net_text(w.net);
    lemma_open_s_concat(p8, net_text(w.net));
    lemma_open_s_concat(p9, "\") (type route))\n"@);
}

proof fn lemma_open_s_via(v: PlacedViaV)
    requires
        plain(v.padstack),
        plain(v.x),
        plain(v.y),
        plain(net_text(v.net)),
    ensures
        no_open_s(via_line(v)),
        !ends_open(via_line(v)),
{
    lemma_open_s_pieces();
    lemma_open_s_plain(v.padstack);
    lemma_open_s_plain(v.x);
    lemma_open_s_plain(v.y);
    lemma_open_s_plain(net_text(v.net));
    let p1 = "  (via \""@;
    let p2 = p1 + v.padstack;
    lemma_open_s_concat(p1, v.padstack);
    let p3 = p2 + "\" "@;
    lemma_open_s_concat(p2, "\" "@);
    let p4 = p3 + v.x;
    lemma_open_s_concat(p3, v.x);
    let p5 = p4 + " "@;
    lemma_open_s_concat(p4, " "@);
    let p6 = p5 + v.y;
    lemma_open_s_concat(p5, v.y);
    let p7 = p6 + " (net \""@;
    lemma_open_s_concat(p6, " (net \""@);
    let p8 = p7 + net_text(v.net);
    lemma_open_s_concat(p7, net_text(v.net));
    lemma_open_s_concat(p8, "\") (type route))\n"@);
}

proof fn lemma_open_s_wires(ws: Seq<WireV>)
    requires
        forall|i: int|
            0 <= i < ws.len() ==> {
                let x = #[trigger] ws[i];
                &&& plain(x.layer)
                &&& plain(x.width)
                &&& plain(net_text(x.net))
                &&& forall|k: int| 0 <= k < x.path.len() ==> plain((#[trigger] x.path[k]).0) && plain(x.path[k].1)
            },
    ensures
        no_open_s(wire_lines(ws)),
        !ends_open(wire_lines(ws)),
    decreases ws.len(),
{
    if ws.len() > 0 {
        let pre = ws.drop_last();
        assert forall|i: int| 0 <= i < pre.len() implies {
            let x = #[trigger] pre[i];
            &&& plain(x.layer)
            &&& plain(x.width)
            &&& plain(net_text(x.net))
            &&& forall|k: int| 0 <= k < x.path.len() ==> plain((#[trigger] x.path[k]).0) && plain(x.path[k].1)
        } by {
            assert(pre[i] == ws[i]);
        }
        lemma_open_s_wires(pre);
        let w = ws.last();
        assert(w == ws[ws.len() - 1]);
        let line = if w.path.len() >= 2 { wire_line(w) } else { Seq::<char>::empty() };
        if w.path.len() >= 2 {
            lemma_open_s_wire(w);
        }
        lemma_open_s_concat(wire_lines(pre), line);
        assert(wire_lines(ws) == wire_lines(pre) + line);
    }
}

proof fn lemma_open_s_vias(vs: Seq<PlacedViaV>)
    requires
        forall|i: int|
            0 <= i < vs.len() ==> {
                let v = #[trigger] vs[i];
                plain(v.padstack) && plain(v.x) && plain(v.y) && plain(net_text(v.net))
            },
    ensures
        no_open_s(via_lines(vs)),
        !ends_open(via_lines(vs)),
    decreases vs.len(),
{
    if vs.len() > 0 {
        let pre = vs.drop_last();
        assert forall|i: int| 0 <= i < pre.len() implies {
            let v = #[trigger] pre[i];
            plain(v.padstack) && plain(v.x) && plain(v.y) && plain(net_text(v.net))
        } by {
            assert(pre[i] == vs[i]);
        }
        lemma_open_s_vias(pre);
        assert(vs.last() == vs[vs.len() - 1]);
        lemma_open_s_via(vs.last());
        lemma_open_s_concat(via_lines(pre), via_line(vs.last()));
    }
}

/// A section written from names and numbers that neither quote nor nest holds
/// no quote directive.
pub proof fn lemma_plain_section_no_directive(w: WiringV)
    requires
        wiring_plain(w),
    ensures
        no_directive(wiring_text(w)),
{
    lemma_open_s_pieces();
    lemma_open_s_wires(w.wires);
    lemma_open_s_vias(w.vias);
    let wl = wire_lines(w.wires);
    let vl = via_lines(w.vias);
    lemma_open_s_concat("(wiring\n"@, wl);
    lemma_open_s_concat("(wiring\n"@ + wl, vl);
    lemma_open_s_concat("(wiring\n"@ + wl + vl, ")"@);
    let tx = wiring_text(w);
    reveal_strlit("(string_quote \")");
    assert forall|i: int| 0 <= i && i + 16 <= tx.len() implies !#[trigger] directive_at(tx, i) by {
        if directive_at(tx, i) {
            assert(tx.subrange(i, i + 16)[0] == tx[i]);
            assert(tx.subrange(i, i + 16)[1] == tx[i + 1]);
            assert(quote_directive()[0] == '(' && quote_directive()[1] == 's');
        }
    }
}

} // verus!
