use vstd::prelude::*;
use crate::sexpr::{Tree, tree_tag};
use crate::dsn::{PcbV, WiringV, pcb_fold};
use crate::reread::{
    wiring_tree, wiring_writable, reread_wiring, law_wiring_reads_back, at, lemma_wiring_at, lemma_items_ws,
    lemma_items_cons, lemma_items_close, lemma_at_split,
};
use crate::serialise::{wiring_text, replaced_wiring, find_wiring, last_index, wiring_head};
use crate::reader::{
    is_ws, is_delim, skip_ws, word_end, quote_at, read_expr, read_items, read_top, read_file, lemma_skip_ws,
    lemma_word_end, lemma_quote_at, lemma_read_expr_progress, lemma_read_items_progress,
};

verus! {

/// A board's wiring is that of its last wiring section: a board whose items
/// hold a written wiring section, with no other wiring section after it, reads
/// as the same board without that item, with the wiring that was written.
pub proof fn law_board_takes_written_wiring(pre: Seq<Tree>, post: Seq<Tree>, w: WiringV)
    requires
        wiring_writable(w),
        forall|k: int| 0 <= k < post.len() ==> tree_tag(#[trigger] post[k]) != "wiring"@,
    ensures
        pcb_fold(pre + seq![wiring_tree(w)] + post) == (PcbV { wiring: reread_wiring(w), ..pcb_fold(pre + post) }),
    decreases post.len(),
{
    let t = wiring_tree(w);
    if post.len() == 0 {
        law_wiring_reads_back(w);
        assert(pre + seq![t] + post =~= pre.push(t));
        assert(pre + post =~= pre);
        assert(pre.push(t).drop_last() =~= pre);
        assert(pre.push(t).last() == t);
        reveal_strlit("wiring");
        reveal_strlit("resolution");
        reveal_strlit("unit");
        reveal_strlit("structure");
        reveal_strlit("placement");
        reveal_strlit("library");
        reveal_strlit("network");
        assert("wiring"@ != "resolution"@) by {
            assert("wiring"@.len() != "resolution"@.len());
        }
        assert("wiring"@ != "unit"@) by {
            assert("wiring"@.len() != "unit"@.len());
        }
        assert("wiring"@ != "structure"@) by {
            assert("wiring"@.len() != "structure"@.len());
        }
        assert("wiring"@ != "placement"@) by {
            assert("wiring"@.len() != "placement"@.len());
        }
        assert("wiring"@ != "library"@) by {
            assert("wiring"@[0] != "library"@[0]);
        }
        assert("wiring"@ != "network"@) by {
            assert("wiring"@[0] != "network"@[0]);
        }
    } else {
        let it = post.last();
        assert(it == post[post.len() - 1]);
        assert forall|k: int| 0 <= k < post.drop_last().len() implies tree_tag(#[trigger] post.drop_last()[k]) != "wiring"@ by {
            assert(post.drop_last()[k] == post[k]);
        }
        law_board_takes_written_wiring(pre, post.drop_last(), w);
        assert((pre + seq![t] + post).drop_last() =~= pre + seq![t] + post.drop_last());
        assert((pre + seq![t] + post).last() == it);
        assert((pre + post).drop_last() =~= pre + post.drop_last());
        assert((pre + post).last() == it);
    }
}

// ─── Reading a text that agrees with another on a stretch ───────────────────

/// No atom of the tree begins with a double quote (no item was a lone quote
/// read as a bare word).
pub open spec fn quote_free(t: Tree) -> bool
    decreases t, 0int,
{
    match t {
        Tree::Atom(a) => a.len() == 0 || a[0] != '"',
        Tree::List(items) => quote_free_items(items, items.len() as int),
    }
}

/// The first `n` of `items` are [`quote_free`].
pub open spec fn quote_free_items(items: Seq<Tree>, n: int) -> bool
    decreases items, n,
{
    if n <= 0 || n > items.len() {
        true
    } else {
        quote_free_items(items, n - 1) && quote_free(items[n - 1])
    }
}

proof fn lemma_quote_free_items(items: Seq<Tree>, n: int)
    requires
        0 <= n <= items.len(),
    ensures
        quote_free_items(items, n) <==> forall|k: int| 0 <= k < n ==> quote_free(#[trigger] items[k]),
    decreases n,
{
    if n > 0 {
        lemma_quote_free_items(items, n - 1);
    }
}

/// `s` and `t` hold the same characters at the positions `[a, b)`.
pub open spec fn agree(s: Seq<char>, t: Seq<char>, a: int, b: int) -> bool {
    &&& 0 <= a <= b
    &&& b <= s.len()
    &&& b <= t.len()
    &&& forall|x: int| a <= x < b ==> #[trigger] s[x] == t[x]
}

proof fn lemma_skip_ws_agree(s: Seq<char>, t: Seq<char>, i: int, k: int)
    requires
        0 <= i <= k,
        k == skip_ws(s, i),
        k < s.len(),
        agree(s, t, i, k + 1),
    ensures
        skip_ws(t, i) == k,
    decreases k - i,
{
    lemma_skip_ws(s, i);
    if i < k {
        assert(is_ws(s[i]));
        assert(s[i] == t[i]);
        lemma_skip_ws_agree(s, t, i + 1, k);
    } else {
        assert(s[k] == t[k]);
    }
}

proof fn lemma_word_end_agree(s: Seq<char>, t: Seq<char>, i: int, j: int)
    requires
        0 <= i <= j,
        j == word_end(s, i),
        agree(s, t, i, j),
        j == t.len() || is_delim(t[j]),
    ensures
        word_end(t, i) == j,
    decreases j - i,
{
    if i < j {
        lemma_word_end(s, i);
        assert(!is_delim(s[i]));
        assert(s[i] == t[i]);
        lemma_word_end_agree(s, t, i + 1, j);
    }
}

proof fn lemma_quote_at_agree(s: Seq<char>, t: Seq<char>, i: int, q: int)
    requires
        0 <= i <= q,
        quote_at(s, i) == Some(q),
        agree(s, t, i, q + 1),
    ensures
        quote_at(t, i) == Some(q),
    decreases q - i,
{
    lemma_quote_at(s, i);
    if i < q {
        assert(s[i] == t[i]);
        lemma_quote_at_agree(s, t, i + 1, q);
    } else {
        assert(s[q] == t[q]);
    }
}

/// A list's items end with its closing parenthesis.
proof fn lemma_items_close_paren(s: Seq<char>, i: int)
    requires
        read_items(s, i) is Some,
    ensures
        ({
            let m = (read_items(s, i)->0).1;
            &&& i < m <= s.len()
            &&& s[m - 1] == ')'
        }),
    decreases s.len() - i,
{
    lemma_read_items_progress(s, i);
    let k = skip_ws(s, i);
    if s[k] != ')' {
        let (e, j) = read_expr(s, k)->0;
        lemma_items_close_paren(s, j);
    }
}

/// An expression read from `s` reads the same from `t` where `t` agrees with
/// `s` over it (and, after a bare word, also ends the word there).
proof fn lemma_expr_agree(s: Seq<char>, t: Seq<char>, i: int, tr: Tree, j: int)
    requires
        read_expr(s, i) == Some((tr, j)),
        quote_free(tr),
        agree(s, t, i, j),
        s[i] != '(' && s[i] != '"' ==> j == t.len() || is_delim(t[j]),
    ensures
        read_expr(t, i) == Some((tr, j)),
    decreases j - i, 1int,
{
    lemma_read_expr_progress(s, i);
    assert(s[i] == t[i]);
    if s[i] == '(' {
        let (items, m) = read_items(s, i + 1)->0;
        assert(m == j);
        lemma_items_close_paren(s, i + 1);
        assert(tr == Tree::List(items));
        lemma_quote_free_items(items, items.len() as int);
        lemma_items_agree(s, t, i + 1, items, j);
    } else if s[i] == '"' {
        if quote_at(s, i + 1) is Some {
            let q = quote_at(s, i + 1)->0;
            lemma_quote_at(s, i + 1);
            lemma_quote_at_agree(s, t, i + 1, q);
            assert(s.subrange(i + 1, q) =~= t.subrange(i + 1, q));
        } else {
            let w = s.subrange(i, word_end(s, i));
            assert(w[0] == '"');
        }
    } else {
        lemma_word_end(s, i);
        lemma_word_end_agree(s, t, i, j);
        assert(s.subrange(i, j) =~= t.subrange(i, j));
    }
}

/// The items of a list read from `s` read the same from `t` where `t` agrees
/// with `s` up to the closing parenthesis, which `t` keeps too.
proof fn lemma_items_agree(s: Seq<char>, t: Seq<char>, i: int, items: Seq<Tree>, m: int)
    requires
        read_items(s, i) == Some((items, m)),
        forall|k: int| 0 <= k < items.len() ==> quote_free(#[trigger] items[k]),
        agree(s, t, i, m),
    ensures
        read_items(t, i) == Some((items, m)),
    decreases m - i, 1int,
{
    lemma_items_close_paren(s, i);
    assert(t[m - 1] == s[m - 1]);
    assert(t[m - 1] == ')');
    lemma_items_extend(s, t, i, items, m, Seq::empty(), m);
    assert(items + Seq::<Tree>::empty() =~= items);
}

/// The items of a list read from `s` go on in `t`, which agrees with `s` up
/// to the closing parenthesis and holds a delimiter in its place: after them
/// `t` reads what it reads from there.
proof fn lemma_items_extend(
    s: Seq<char>,
    t: Seq<char>,
    i: int,
    items: Seq<Tree>,
    m: int,
    more: Seq<Tree>,
    m2: int,
)
    requires
        read_items(s, i) == Some((items, m)),
        forall|k: int| 0 <= k < items.len() ==> quote_free(#[trigger] items[k]),
        agree(s, t, i, m - 1),
        m <= t.len(),
        is_delim(t[m - 1]),
        read_items(t, m - 1) == Some((more, m2)),
    ensures
        read_items(t, i) == Some((items + more, m2)),
    decreases m - i, 0int,
{
    lemma_items_close_paren(s, i);
    lemma_skip_ws(s, i);
    let k = skip_ws(s, i);
    if s[k] == ')' {
        assert(m == k + 1);
        assert(items =~= Seq::<Tree>::empty());
        lemma_skip_ws_all(s, i);
        assert forall|x: int| i <= x < k implies is_ws(#[trigger] t[x]) by {
            assert(s[x] == t[x]);
        }
        lemma_skip_ws_to(t, i, k);
        assert(items + more =~= more);
    } else {
        let (e, j) = read_expr(s, k)->0;
        let (rest, m1) = read_items(s, j)->0;
        assert(m1 == m);
        assert(items == seq![e] + rest);
        lemma_read_expr_progress(s, k);
        lemma_read_items_progress(s, j);
        lemma_items_close_paren(s, j);
        assert(k < m - 1);
        lemma_skip_ws_agree(s, t, i, k);
        assert(quote_free(items[0]));
        assert(items[0] == e);
        if j < m - 1 {
            assert(s[j] == t[j]);
            if s[k] != '(' && s[k] != '"' {
                lemma_word_end(s, k);
            }
        }
        lemma_expr_agree(s, t, k, e, j);
        assert forall|x: int| 0 <= x < rest.len() implies quote_free(#[trigger] rest[x]) by {
            assert(rest[x] == items[x + 1]);
        }
        lemma_items_extend(s, t, j, rest, m, more, m2);
        assert(t[k] == s[k]);
        assert(seq![e] + (rest + more) =~= items + more);
    }
}

proof fn lemma_skip_ws_all(s: Seq<char>, i: int)
    requires
        0 <= i,
    ensures
        forall|x: int| i <= x < skip_ws(s, i) ==> is_ws(#[trigger] s[x]),
    decreases s.len() - i,
{
    if 0 <= i < s.len() && is_ws(s[i]) {
        lemma_skip_ws_all(s, i + 1);
    }
}

/// Where only white space lies between `i` and a delimiter at `k`, the items
/// read from `i` are those read from `k`.
proof fn lemma_skip_ws_to(t: Seq<char>, i: int, k: int)
    requires
        0 <= i <= k < t.len(),
        forall|x: int| i <= x < k ==> is_ws(#[trigger] t[x]),
    ensures
        read_items(t, i) == read_items(t, k),
    decreases k - i,
{
    if i < k {
        assert(is_ws(t[i]));
        lemma_skip_ws(t, i + 1);
        lemma_skip_ws_to(t, i + 1, k);
    }
}

// ─── Writing the wiring into a board without one ────────────────────────────

pub(crate) proof fn lemma_last_index(s: Seq<char>, c: char, p: int)
    requires
        0 <= p < s.len(),
        s[p] == c,
        forall|x: int| p < x < s.len() ==> #[trigger] s[x] != c,
    ensures
        last_index(s, c) == Some(p),
    decreases s.len(),
{
    if s.len() - 1 > p {
        assert(s.last() == s[s.len() - 1]);
        assert forall|x: int| p < x < s.drop_last().len() implies #[trigger] s.drop_last()[x] != c by {
            assert(s.drop_last()[x] == s[x]);
        }
        lemma_last_index(s.drop_last(), c, p);
    }
}

/// Where a text that reads as one list has that list.
pub(crate) proof fn lemma_one_list(s: Seq<char>, items: Seq<Tree>) -> (r: (int, int))
    requires
        read_file(s) == Some(seq![Tree::List(items)]),
    ensures
        r.0 == skip_ws(s, 0),
        0 <= r.0 < r.1 - 1,
        r.1 <= s.len(),
        s[r.0] == '(',
        read_items(s, r.0 + 1) == Some((items, r.1)),
        s[r.1 - 1] == ')',
        forall|x: int| r.1 <= x < s.len() ==> is_ws(#[trigger] s[x]),
{
    let k0 = skip_ws(s, 0);
    lemma_skip_ws(s, 0);
    let top = read_top(s, 0);
    assert(top == Some(seq![Tree::List(items)]));
    if k0 >= s.len() {
        assert(top == Some(Seq::<Tree>::empty()));
        assert(false);
    }
    lemma_read_expr_progress(s, k0);
    let (tr, e) = read_expr(s, k0)->0;
    let rest = read_top(s, e)->0;
    assert(top == Some(seq![tr] + rest));
    assert(seq![tr] + rest == seq![Tree::List(items)]);
    assert((seq![tr] + rest).len() == 1);
    assert(rest.len() == 0);
    assert((seq![tr] + rest)[0] == tr);
    assert(tr == Tree::List(items));
    lemma_skip_ws(s, e);
    lemma_skip_ws_all(s, e);
    if skip_ws(s, e) < s.len() {
        lemma_read_expr_progress(s, skip_ws(s, e));
        assert((read_top(s, e)->0).len() >= 1);
        assert(false);
    }
    assert(s[k0] == '(');
    lemma_items_close_paren(s, k0 + 1);
    (k0, e)
}

/// The tail that writing puts in place of a board's closing parenthesis — a
/// newline, the section, a newline and the parenthesis — reads as the wiring
/// node and closes the list.
proof fn lemma_written_tail(t: Seq<char>, p: int, w: WiringV)
    requires
        wiring_writable(w),
        0 <= p,
        t.len() == p + 1 + wiring_text(w).len() + 2,
        at(t, p, "\n"@ + wiring_text(w) + "\n"@ + ")"@),
    ensures
        read_items(t, p) == Some((seq![wiring_tree(w)], t.len() as int)),
        is_delim(t[p]),
{
    reveal_strlit("\n");
    reveal_strlit(")");
    let tx = wiring_text(w);
    let n = t.len() as int;
    lemma_at_split(t, p, "\n"@ + tx + "\n"@, ")"@);
    lemma_at_split(t, p, "\n"@ + tx, "\n"@);
    lemma_at_split(t, p, "\n"@, tx);
    let e = p + 1;
    crate::reread::lemma_at_char(t, p, "\n"@, 0);
    crate::reread::lemma_at_char(t, e + tx.len(), "\n"@, 0);
    crate::reread::lemma_at_char(t, e + tx.len() + 1, ")"@, 0);
    lemma_wiring_at(t, e, w);
    lemma_items_close(t, e + tx.len() + 1);
    lemma_items_ws(t, e + tx.len());
    assert(tx[0] == '(') by {
        reveal_strlit("(wiring\n");
        assert(tx[0] == "(wiring\n"@[0]);
    }
    crate::reread::lemma_at_char(t, e, tx, 0);
    lemma_items_cons(t, e, wiring_tree(w), e + tx.len(), Seq::empty(), n);
    lemma_items_ws(t, p);
    assert(seq![wiring_tree(w)] + Seq::<Tree>::empty() =~= seq![wiring_tree(w)]);
}

/// A board text that is one list, with no wiring section: writing a wiring
/// into it adds the written section as the board's last item, and the text
/// reads as the same board with that item (where no item of the board is a
/// lone double quote, which the added quotes would pair up).
pub proof fn law_wiring_written_into_board(s: Seq<char>, items: Seq<Tree>, w: WiringV)
    requires
        read_file(s) == Some(seq![Tree::List(items)]),
        quote_free(Tree::List(items)),
        find_wiring(s, 0) is None,
        wiring_writable(w),
    ensures
        read_file(replaced_wiring(s, wiring_text(w))) == Some(seq![Tree::List(items.push(wiring_tree(w)))]),
{
    let (k0, e) = lemma_one_list(s, items);
    assert forall|x: int| e - 1 < x < s.len() implies #[trigger] s[x] != ')' by {
        assert(is_ws(s[x]));
    }
    lemma_last_index(s, ')', e - 1);
    let tx = wiring_text(w);
    let t = replaced_wiring(s, tx);
    let tail = "\n"@ + tx + "\n"@ + ")"@;
    assert(t == s.take(e - 1) + tail);
    reveal_strlit("\n");
    reveal_strlit(")");
    let n = t.len() as int;
    assert(at(t, e - 1, tail)) by {
        assert(t.subrange(e - 1, e - 1 + tail.len()) =~= tail);
    }
    lemma_written_tail(t, e - 1, w);
    assert(agree(s, t, 0, e - 1));
    lemma_quote_free_items(items, items.len() as int);
    lemma_items_extend(s, t, k0 + 1, items, e, seq![wiring_tree(w)], n);
    assert(items + seq![wiring_tree(w)] =~= items.push(wiring_tree(w)));
    assert(t[k0] == '(');
    assert(read_expr(t, k0) == Some((Tree::List(items.push(wiring_tree(w))), n)));
    lemma_skip_ws_agree(s, t, 0, k0);
    lemma_skip_ws(t, n);
    assert(read_top(t, n) == Some(Seq::<Tree>::empty()));
    lemma_read_expr_progress(t, k0);
    assert(read_file(t) =~= Some(seq![Tree::List(items.push(wiring_tree(w)))]));
}

// ─── Reading the same text further along ────────────────────────────────────

/// `t` from `j` on is `s` from `i` on.
pub open spec fn same_tail(s: Seq<char>, i: int, t: Seq<char>, j: int) -> bool {
    &&& 0 <= i <= s.len()
    &&& 0 <= j <= t.len()
    &&& s.len() - i == t.len() - j
    &&& forall|x: int| 0 <= x < s.len() - i ==> #[trigger] s[i + x] == t[j + x]
}

proof fn lemma_same_tail_next(s: Seq<char>, i: int, t: Seq<char>, j: int)
    requires
        same_tail(s, i, t, j),
        i < s.len(),
    ensures
        same_tail(s, i + 1, t, j + 1),
        s[i] == t[j],
{
    assert(s[i + 0] == t[j + 0]);
    assert forall|x: int| 0 <= x < s.len() - (i + 1) implies #[trigger] s[i + 1 + x] == t[j + 1 + x] by {
        assert(s[i + (x + 1)] == t[j + (x + 1)]);
    }
}

proof fn lemma_skip_ws_shift(s: Seq<char>, i: int, t: Seq<char>, j: int)
    requires
        same_tail(s, i, t, j),
    ensures
        skip_ws(t, j) == skip_ws(s, i) + (j - i),
    decreases s.len() - i,
{
    if i < s.len() {
        lemma_same_tail_next(s, i, t, j);
        if is_ws(s[i]) {
            lemma_skip_ws_shift(s, i + 1, t, j + 1);
        }
    }
}

proof fn lemma_word_end_shift(s: Seq<char>, i: int, t: Seq<char>, j: int)
    requires
        same_tail(s, i, t, j),
    ensures
        word_end(t, j) == word_end(s, i) + (j - i),
    decreases s.len() - i,
{
    if i < s.len() {
        lemma_same_tail_next(s, i, t, j);
        if !is_delim(s[i]) {
            lemma_word_end_shift(s, i + 1, t, j + 1);
        }
    }
}

proof fn lemma_quote_at_shift(s: Seq<char>, i: int, t: Seq<char>, j: int)
    requires
        same_tail(s, i, t, j),
    ensures
        quote_at(t, j) == match quote_at(s, i) {
            Some(q) => Some(q + (j - i)),
            None => None::<int>,
        },
    decreases s.len() - i,
{
    if i < s.len() {
        lemma_same_tail_next(s, i, t, j);
        if s[i] != '"' {
            lemma_quote_at_shift(s, i + 1, t, j + 1);
        }
    }
}

proof fn lemma_same_tail_skip(s: Seq<char>, i: int, t: Seq<char>, j: int, k: int)
    requires
        same_tail(s, i, t, j),
        i <= k <= s.len(),
    ensures
        same_tail(s, k, t, j + (k - i)),
{
    assert forall|x: int| 0 <= x < s.len() - k implies #[trigger] s[k + x] == t[j + (k - i) + x] by {
        assert(s[i + (k - i + x)] == t[j + (k - i + x)]);
    }
}

/// An expression reads the same wherever the rest of the text is the same.
proof fn lemma_expr_shift(s: Seq<char>, i: int, t: Seq<char>, j: int)
    requires
        same_tail(s, i, t, j),
    ensures
        read_expr(t, j) == match read_expr(s, i) {
            Some((tr, e)) => Some((tr, e + (j - i))),
            None => None::<(Tree, int)>,
        },
    decreases s.len() - i, 1int,
{
    if i < s.len() {
        lemma_same_tail_next(s, i, t, j);
        lemma_same_tail_skip(s, i, t, j, i + 1);
        if s[i] == '(' {
            lemma_items_shift(s, i + 1, t, j + 1);
        } else if s[i] == '"' {
            lemma_quote_at_shift(s, i + 1, t, j + 1);
            if quote_at(s, i + 1) is Some {
                let q = quote_at(s, i + 1)->0;
                lemma_quote_at(s, i + 1);
                assert(s.subrange(i + 1, q) =~= t.subrange(j + 1, q + (j - i))) by {
                    assert forall|x: int| 0 <= x < q - i - 1 implies #[trigger] s.subrange(i + 1, q)[x] == t.subrange(j + 1, q + (j - i))[x] by {
                        assert(s[i + (1 + x)] == t[j + (1 + x)]);
                    }
                }
            } else {
                lemma_word_end_shift(s, i, t, j);
                lemma_word_end(s, i);
                let we = word_end(s, i);
                assert(s.subrange(i, we) =~= t.subrange(j, we + (j - i))) by {
                    assert forall|x: int| 0 <= x < we - i implies #[trigger] s.subrange(i, we)[x] == t.subrange(j, we + (j - i))[x] by {
                        assert(s[i + x] == t[j + x]);
                    }
                }
            }
        } else if s[i] != ')' && !is_ws(s[i]) {
            lemma_word_end_shift(s, i, t, j);
            lemma_word_end(s, i);
            let we = word_end(s, i);
            assert(s.subrange(i, we) =~= t.subrange(j, we + (j - i))) by {
                assert forall|x: int| 0 <= x < we - i implies #[trigger] s.subrange(i, we)[x] == t.subrange(j, we + (j - i))[x] by {
                    assert(s[i + x] == t[j + x]);
                }
            }
        }
    }
}

/// A list's items read the same wherever the rest of the text is the same.
proof fn lemma_items_shift(s: Seq<char>, i: int, t: Seq<char>, j: int)
    requires
        same_tail(s, i, t, j),
    ensures
        read_items(t, j) == match read_items(s, i) {
            Some((ts, m)) => Some((ts, m + (j - i))),
            None => None::<(Seq<Tree>, int)>,
        },
    decreases s.len() - i, 2int,
{
    lemma_skip_ws_shift(s, i, t, j);
    lemma_skip_ws(s, i);
    let k = skip_ws(s, i);
    if k < s.len() {
        lemma_same_tail_skip(s, i, t, j, k);
        lemma_same_tail_next(s, k, t, j + (k - i));
        if s[k] != ')' {
            lemma_expr_shift(s, k, t, j + (k - i));
            lemma_read_expr_progress(s, k);
            if read_expr(s, k) is Some {
                let e = (read_expr(s, k)->0).1;
                lemma_same_tail_skip(s, i, t, j, e);
                lemma_items_shift(s, e, t, j + (e - i));
            }
        }
    }
}

// ─── Writing the wiring over a board's wiring section ───────────────────────

/// A board text whose wiring section is one of the board's items: the text
/// cut before the section and closed reads as the items before it, the
/// section reads as one item, and the board's items go on after it to the end
/// of the text. Writing a wiring replaces that item by the written section,
/// and the text reads as the same board with the item replaced (where no item
/// before the section is a lone double quote).
pub proof fn law_wiring_written_over_board_wiring(
    s: Seq<char>,
    a: int,
    b: int,
    pre: Seq<Tree>,
    old: Tree,
    post: Seq<Tree>,
    e: int,
    w: WiringV,
)
    requires
        find_wiring(s, 0) == Some((a, b)),
        read_file(s.take(a) + ")"@) == Some(seq![Tree::List(pre)]),
        quote_free(Tree::List(pre)),
        read_expr(s, a) == Some((old, b + 1)),
        read_items(s, b + 1) == Some((post, e)),
        forall|x: int| e <= x < s.len() ==> is_ws(#[trigger] s[x]),
        wiring_writable(w),
    ensures
        read_file(s) == Some(seq![Tree::List(pre + seq![old] + post)]),
        read_file(replaced_wiring(s, wiring_text(w))) == Some(seq![Tree::List(pre + seq![wiring_tree(w)] + post)]),
{
    reveal_strlit(")");
    crate::serialise::lemma_find_wiring_bounds(s, 0);
    assert(0 <= a <= b < s.len());
    let s1 = s.take(a) + ")"@;
    let (k0, e1) = lemma_one_list(s1, pre);
    // the cut text ends with the parenthesis put after the cut
    assert(e1 == a + 1) by {
        if e1 < a + 1 {
            assert(is_ws(s1[a]));
        }
    }
    lemma_find_wiring_open(s, 0);
    lemma_read_expr_progress(s, a);
    lemma_read_items_progress(s, b + 1);
    // the board as it is
    assert(read_items(s, a) == Some((seq![old] + post, e)));
    lemma_quote_free_items(pre, pre.len() as int);
    assert(agree(s1, s, k0 + 1, a));
    lemma_items_extend(s1, s, k0 + 1, pre, a + 1, seq![old] + post, e);
    assert(pre + (seq![old] + post) =~= pre + seq![old] + post);
    assert(agree(s1, s, 0, k0 + 1));
    lemma_skip_ws_agree(s1, s, 0, k0);
    lemma_skip_ws(s, e);
    lemma_skip_ws_to_end(s, e);
    assert(s[k0] == s1[k0]);
    assert(read_expr(s, k0) == Some((Tree::List(pre + seq![old] + post), e)));
    lemma_read_expr_progress(s, k0);
    assert(read_top(s, e) == Some(Seq::<Tree>::empty()));
    assert(read_file(s) =~= Some(seq![Tree::List(pre + seq![old] + post)]));
    // the board with the section written over
    let tx = wiring_text(w);
    let t = replaced_wiring(s, tx);
    assert(t == s.take(a) + tx + s.skip(b + 1));
    let d = a + tx.len() - (b + 1);
    assert(same_tail(s, b + 1, t, a + tx.len())) by {
        assert forall|x: int| 0 <= x < s.len() - (b + 1) implies #[trigger] s[b + 1 + x] == t[a + tx.len() + x] by {
            assert(t[a + tx.len() + x] == s.skip(b + 1)[x]);
        }
    }
    lemma_items_shift(s, b + 1, t, a + tx.len());
    assert(at(t, a, tx)) by {
        assert(t.subrange(a, a + tx.len()) =~= tx);
    }
    lemma_wiring_at(t, a, w);
    assert(tx[0] == '(') by {
        reveal_strlit("(wiring\n");
        assert(tx[0] == "(wiring\n"@[0]);
    }
    crate::reread::lemma_at_char(t, a, tx, 0);
    lemma_items_cons(t, a, wiring_tree(w), a + tx.len(), post, e + d);
    assert(agree(s1, t, k0 + 1, a));
    lemma_items_extend(s1, t, k0 + 1, pre, a + 1, seq![wiring_tree(w)] + post, e + d);
    assert(pre + (seq![wiring_tree(w)] + post) =~= pre + seq![wiring_tree(w)] + post);
    assert(agree(s1, t, 0, k0 + 1));
    lemma_skip_ws_agree(s1, t, 0, k0);
    lemma_same_tail_skip(s, b + 1, t, a + tx.len(), e);
    lemma_skip_ws_shift(s, e, t, e + d);
    lemma_read_expr_progress(t, k0);
    assert(read_top(t, e + d) == Some(Seq::<Tree>::empty()));
    assert(read_file(t) =~= Some(seq![Tree::List(pre + seq![wiring_tree(w)] + post)]));
}

proof fn lemma_find_wiring_open(s: Seq<char>, i: int)
    requires
        find_wiring(s, i) is Some,
    ensures
        s[(find_wiring(s, i)->0).0] == '(',
    decreases s.len() - i,
{
    if !crate::serialise::section_start(s, i) {
        lemma_find_wiring_open(s, i + 1);
    }
}

proof fn lemma_skip_ws_to_end(s: Seq<char>, i: int)
    requires
        0 <= i <= s.len(),
        forall|x: int| i <= x < s.len() ==> is_ws(#[trigger] s[x]),
    ensures
        skip_ws(s, i) == s.len(),
    decreases s.len() - i,
{
    if i < s.len() {
        lemma_skip_ws_to_end(s, i + 1);
    }
}

} // verus!
