use vstd::prelude::*;
use crate::sexpr::{SExpr, Tree, slice_views};
use crate::text::{string_from, to_chars};

verus! {

// ─── Grammar ────────────────────────────────────────────────────────────────
//
// file  = ws* (expr ws*)*
// expr  = "(" ws* (expr ws*)* ")"        a list
//       | '"' (not '"')* '"'             a quoted string; the atom is its contents
//       | (not ws, "(", ")")+            a bare word (also taken when a '"' has no partner)
// ws    = ' ' | '\t' | '\r' | '\n'

pub open spec fn is_ws(c: char) -> bool {
    c == ' ' || c == '\t' || c == '\r' || c == '\n'
}

/// Characters that end a bare word.
pub open spec fn is_delim(c: char) -> bool {
    is_ws(c) || c == '(' || c == ')'
}

/// The first position at or after `i` that holds no white space.
pub open spec fn skip_ws(s: Seq<char>, i: int) -> int
    decreases s.len() - i,
{
    if 0 <= i < s.len() && is_ws(s[i]) {
        skip_ws(s, i + 1)
    } else {
        i
    }
}

/// The first position at or after `i` that holds a delimiter (or the end).
pub open spec fn word_end(s: Seq<char>, i: int) -> int
    decreases s.len() - i,
{
    if 0 <= i < s.len() && !is_delim(s[i]) {
        word_end(s, i + 1)
    } else {
        i
    }
}

/// The first position at or after `i` that holds a double quote.
pub open spec fn quote_at(s: Seq<char>, i: int) -> Option<int>
    decreases s.len() - i,
{
    if 0 <= i < s.len() {
        if s[i] == '"' {
            Some(i)
        } else {
            quote_at(s, i + 1)
        }
    } else {
        None
    }
}

/// Reads one expression starting exactly at `i`; gives the tree and the
/// position just after it.
pub open spec fn read_expr(s: Seq<char>, i: int) -> Option<(Tree, int)>
    decreases s.len() - i, 1int,
{
    if 0 <= i < s.len() {
        if s[i] == '(' {
            match read_items(s, i + 1) {
                Some((items, j)) => Some((Tree::List(items), j)),
                None => None,
            }
        } else if s[i] == ')' {
            None
        } else if s[i] == '"' && quote_at(s, i + 1) is Some {
            let j = quote_at(s, i + 1)->0;
            Some((Tree::Atom(s.subrange(i + 1, j)), j + 1))
        } else if is_ws(s[i]) {
            None
        } else {
            let j = word_end(s, i);
            Some((Tree::Atom(s.subrange(i, j)), j))
        }
    } else {
        None
    }
}

/// Reads the items of a list whose opening parenthesis lies before `i`, up to
/// and including the closing parenthesis.
pub open spec fn read_items(s: Seq<char>, i: int) -> Option<(Seq<Tree>, int)>
    decreases s.len() - i, 2int,
{
    let k = skip_ws(s, i);
    if 0 <= i <= k < s.len() {
        if s[k] == ')' {
            Some((Seq::empty(), k + 1))
        } else {
            match read_expr(s, k) {
                Some((e, j)) => if k < j <= s.len() {
                    match read_items(s, j) {
                        Some((rest, m)) => Some((seq![e] + rest, m)),
                        None => None,
                    }
                } else {
                    None
                },
                None => None,
            }
        }
    } else {
        None
    }
}

/// Reads the top-level expressions from `i` to the end of the text.
pub open spec fn read_top(s: Seq<char>, i: int) -> Option<Seq<Tree>>
    decreases s.len() - i,
{
    let k = skip_ws(s, i);
    if 0 <= i <= k {
        if k >= s.len() {
            Some(Seq::empty())
        } else {
            match read_expr(s, k) {
                Some((e, j)) => if k < j <= s.len() {
                    match read_top(s, j) {
                        Some(rest) => Some(seq![e] + rest),
                        None => None,
                    }
                } else {
                    None
                },
                None => None,
            }
        }
    } else {
        None
    }
}

pub open spec fn read_file(s: Seq<char>) -> Option<Seq<Tree>> {
    read_top(s, 0)
}

// ─── Facts about the grammar ────────────────────────────────────────────────

pub proof fn lemma_skip_ws(s: Seq<char>, i: int)
    requires
        0 <= i,
    ensures
        i <= skip_ws(s, i),
        skip_ws(s, i) < s.len() ==> !is_ws(s[skip_ws(s, i)]),
        i <= s.len() ==> skip_ws(s, i) <= s.len(),
        i > s.len() ==> skip_ws(s, i) == i,
    decreases s.len() - i,
{
    if 0 <= i < s.len() && is_ws(s[i]) {
        lemma_skip_ws(s, i + 1);
    }
}

pub proof fn lemma_word_end(s: Seq<char>, i: int)
    requires
        0 <= i <= s.len(),
    ensures
        i <= word_end(s, i) <= s.len(),
        word_end(s, i) < s.len() ==> is_delim(s[word_end(s, i)]),
        forall|k: int| i <= k < word_end(s, i) ==> !is_delim(#[trigger] s[k]),
    decreases s.len() - i,
{
    if i < s.len() && !is_delim(s[i]) {
        lemma_word_end(s, i + 1);
    }
}

pub proof fn lemma_quote_at(s: Seq<char>, i: int)
    requires
        0 <= i,
    ensures
        quote_at(s, i) matches Some(j) ==> i <= j < s.len() && s[j] == '"' && forall|k: int|
            i <= k < j ==> s[k] != '"',
        quote_at(s, i) is None ==> forall|k: int| i <= k < s.len() ==> s[k] != '"',
    decreases s.len() - i,
{
    if 0 <= i < s.len() && s[i] != '"' {
        lemma_quote_at(s, i + 1);
    }
}

pub proof fn lemma_read_expr_progress(s: Seq<char>, i: int)
    ensures
        read_expr(s, i) matches Some((_, j)) ==> i < j <= s.len(),
    decreases s.len() - i, 1int,
{
    if 0 <= i < s.len() {
        if s[i] == '(' {
            lemma_read_items_progress(s, i + 1);
        } else if s[i] == '"' && quote_at(s, i + 1) is Some {
            lemma_quote_at(s, i + 1);
        } else if s[i] != ')' && !is_ws(s[i]) {
            lemma_word_end(s, i);
            lemma_word_end(s, i + 1);
            assert(word_end(s, i) == word_end(s, i + 1));
        }
    }
}

pub proof fn lemma_read_items_progress(s: Seq<char>, i: int)
    ensures
        read_items(s, i) matches Some((_, j)) ==> i < j <= s.len(),
    decreases s.len() - i, 2int,
{
    let k = skip_ws(s, i);
    if 0 <= i {
        lemma_skip_ws(s, i);
    }
    if 0 <= i <= k < s.len() && s[k] != ')' {
        lemma_read_expr_progress(s, k);
        if let Some((e, j)) = read_expr(s, k) {
            if k < j {
                lemma_read_items_progress(s, j);
            }
        }
    }
}

// ─── Reading ────────────────────────────────────────────────────────────────

fn is_ws_char(c: char) -> (r: bool)
    ensures
        r == is_ws(c),
{
    c == ' ' || c == '\t' || c == '\r' || c == '\n'
}

fn skip_ws_exec(s: &Vec<char>, i: usize) -> (r: usize)
    requires
        i <= s@.len(),
    ensures
        r == skip_ws(s@, i as int),
        i <= r <= s@.len(),
{
    let mut k = i;
    while k < s.len() && is_ws_char(s[k])
        invariant
            i <= k <= s@.len(),
            skip_ws(s@, i as int) == skip_ws(s@, k as int),
        decreases s@.len() - k,
    {
        k = k + 1;
    }
    k
}

fn word_end_exec(s: &Vec<char>, i: usize) -> (r: usize)
    requires
        i <= s@.len(),
    ensures
        r == word_end(s@, i as int),
{
    let mut k = i;
    while k < s.len() && !(is_ws_char(s[k]) || s[k] == '(' || s[k] == ')')
        invariant
            i <= k <= s@.len(),
            word_end(s@, i as int) == word_end(s@, k as int),
        decreases s@.len() - k,
    {
        k = k + 1;
    }
    k
}

fn quote_at_exec(s: &Vec<char>, i: usize) -> (r: Option<usize>)
    requires
        i <= s@.len(),
    ensures
        match r {
            Some(j) => quote_at(s@, i as int) == Some(j as int),
            None => quote_at(s@, i as int) is None,
        },
{
    let mut k = i;
    while k < s.len()
        invariant
            i <= k <= s@.len(),
            quote_at(s@, i as int) == quote_at(s@, k as int),
        decreases s@.len() - k,
    {
        if s[k] == '"' {
            return Some(k);
        }
        k = k + 1;
    }
    None
}

pub open spec fn expr_result(r: Option<(SExpr, usize)>) -> Option<(Tree, int)> {
    match r {
        Some((e, j)) => Some((e@, j as int)),
        None => None,
    }
}

/// Reads one expression that starts exactly at `i`.
fn read_expr_exec(s: &Vec<char>, i: usize) -> (r: Option<(SExpr, usize)>)
    requires
        i <= s@.len(),
    ensures
        expr_result(r) == read_expr(s@, i as int),
    decreases s@.len() - i, 1int,
{
    if i >= s.len() {
        return None;
    }
    let c = s[i];
    if c == '(' {
        match read_items_exec(s, i + 1) {
            Some((items, j)) => {
                proof {
                    crate::sexpr::lemma_list_items(items);
                }
                Some((SExpr::List(items), j))
            },
            None => None,
        }
    } else if c == ')' {
        None
    } else if c == '"' && quote_at_exec(s, i + 1).is_some() {
        let j = match quote_at_exec(s, i + 1) {
            Some(j) => j,
            None => i,
        };
        proof {
            lemma_quote_at(s@, i + 1);
        }
        let text = string_from(s, i + 1, j);
        Some((SExpr::Atom(text), j + 1))
    } else if is_ws_char(c) {
        None
    } else {
        let j = word_end_exec(s, i);
        proof {
            lemma_word_end(s@, i as int);
        }
        let text = string_from(s, i, j);
        Some((SExpr::Atom(text), j))
    }
}

pub open spec fn prepend_items(
    done: Seq<Tree>,
    rest: Option<(Seq<Tree>, int)>,
) -> Option<(Seq<Tree>, int)> {
    match rest {
        Some((items, m)) => Some((done + items, m)),
        None => None,
    }
}

/// Reads list items up to and including the closing parenthesis.
fn read_items_exec(s: &Vec<char>, i: usize) -> (r: Option<(Vec<SExpr>, usize)>)
    requires
        i <= s@.len(),
    ensures
        read_items(s@, i as int) == match r {
            Some((v, j)) => Some((slice_views(v@), j as int)),
            None => None,
        },
    decreases s@.len() - i, 2int,
{
    let mut out: Vec<SExpr> = Vec::new();
    let mut pos = i;
    loop
        invariant
            i <= pos <= s@.len(),
            read_items(s@, i as int) == prepend_items(slice_views(out@), read_items(s@, pos as int)),
        decreases s@.len() - pos,
    {
        let k = skip_ws_exec(s, pos);
        if k >= s.len() {
            return None;
        }
        if s[k] == ')' {
            assert(slice_views(out@) + Seq::<Tree>::empty() =~= slice_views(out@));
            return Some((out, k + 1));
        }
        proof {
            lemma_read_expr_progress(s@, k as int);
        }
        match read_expr_exec(s, k) {
            Some((e, j)) => {
                let ghost before = slice_views(out@);
                let ghost et = e@;
                out.push(e);
                proof {
                    assert(slice_views(out@) =~= before.push(et));
                    match read_items(s@, j as int) {
                        Some((rest, m)) => {
                            assert(before + (seq![et] + rest) =~= before.push(et) + rest);
                        },
                        None => {},
                    }
                }
                pos = j;
            },
            None => {
                return None;
            },
        }
    }
}

/// Reads every top-level expression of a text.
pub fn read_all(s: &Vec<char>) -> (r: Option<Vec<SExpr>>)
    ensures
        read_file(s@) == match r {
            Some(v) => Some(slice_views(v@)),
            None => None,
        },
{
    let mut out: Vec<SExpr> = Vec::new();
    let mut pos: usize = 0;
    loop
        invariant
            pos <= s@.len(),
            read_file(s@) == match read_top(s@, pos as int) {
                Some(rest) => Some(slice_views(out@) + rest),
                None => None,
            },
        decreases s@.len() - pos,
    {
        let k = skip_ws_exec(s, pos);
        if k >= s.len() {
            assert(slice_views(out@) + Seq::<Tree>::empty() =~= slice_views(out@));
            return Some(out);
        }
        proof {
            lemma_read_expr_progress(s@, k as int);
        }
        match read_expr_exec(s, k) {
            Some((e, j)) => {
                let ghost before = slice_views(out@);
                let ghost et = e@;
                out.push(e);
                proof {
                    assert(slice_views(out@) =~= before.push(et));
                    match read_top(s@, j as int) {
                        Some(rest) => {
                            assert(before + (seq![et] + rest) =~= before.push(et) + rest);
                        },
                        None => {},
                    }
                }
                pos = j;
            },
            None => {
                return None;
            },
        }
    }
}

} // verus!

verus! {

// ─── The `string_quote` directive ───────────────────────────────────────────

/// Every non-overlapping occurrence of `pat` in `s`, left to right, replaced by `rep`.
pub open spec fn replace_all(s: Seq<char>, pat: Seq<char>, rep: Seq<char>) -> Seq<char>
    decreases s.len(),
{
    if s.len() == 0 || pat.len() == 0 {
        s
    } else if pat.len() <= s.len() && s.take(pat.len() as int) == pat {
        rep + replace_all(s.skip(pat.len() as int), pat, rep)
    } else {
        seq![s[0]] + replace_all(s.skip(1), pat, rep)
    }
}

/// The directive `(string_quote ")`, whose lone quote would open a string.
pub open spec fn quote_directive() -> Seq<char> {
    "(string_quote \")"@
}

pub open spec fn quote_directive_replacement() -> Seq<char> {
    "(string_quote dquote)"@
}

/// The text that the reader sees for a DSN file.
pub open spec fn preprocessed(s: Seq<char>) -> Seq<char> {
    replace_all(s, quote_directive(), quote_directive_replacement())
}

fn starts_with_at(s: &Vec<char>, i: usize, pat: &Vec<char>) -> (r: bool)
    requires
        i <= s@.len(),
    ensures
        r == (pat@.len() <= s@.len() - i && s@.skip(i as int).take(pat@.len() as int) == pat@),
{
    if pat.len() > s.len() - i {
        return false;
    }
    let mut k: usize = 0;
    while k < pat.len()
        invariant
            i <= s@.len(),
            pat@.len() <= s@.len() - i,
            0 <= k <= pat@.len(),
            forall|m: int| 0 <= m < k ==> s@[i + m] == pat@[m],
        decreases pat@.len() - k,
    {
        assert(i + k < s.len());
        if s[i + k] != pat[k] {
            assert(s@.skip(i as int).take(pat@.len() as int)[k as int] != pat@[k as int]);
            return false;
        }
        k = k + 1;
    }
    assert(s@.skip(i as int).take(pat@.len() as int) =~= pat@);
    true
}

fn replace_all_exec(s: &Vec<char>, pat: &Vec<char>, rep: &Vec<char>) -> (r: Vec<char>)
    requires
        pat@.len() > 0,
    ensures
        r@ == replace_all(s@, pat@, rep@),
{
    let mut out: Vec<char> = Vec::new();
    let mut i: usize = 0;
    assert(s@.skip(0) =~= s@);
    assert(out@ + replace_all(s@, pat@, rep@) =~= replace_all(s@, pat@, rep@));
    while i < s.len()
        invariant
            pat@.len() > 0,
            i <= s@.len(),
            replace_all(s@, pat@, rep@) == out@ + replace_all(s@.skip(i as int), pat@, rep@),
        decreases s@.len() - i,
    {
        let ghost rest = s@.skip(i as int);
        if starts_with_at(s, i, pat) {
            let mut k: usize = 0;
            let ghost before = out@;
            while k < rep.len()
                invariant
                    0 <= k <= rep@.len(),
                    out@ == before + rep@.take(k as int),
                decreases rep@.len() - k,
            {
                out.push(rep[k]);
                assert(out@ =~= before + rep@.take(k + 1));
                k = k + 1;
            }
            assert(rep@.take(rep@.len() as int) =~= rep@);
            assert(rest.skip(pat@.len() as int) =~= s@.skip(i + pat@.len()));
            assert(before + (rep@ + replace_all(rest.skip(pat@.len() as int), pat@, rep@))
                =~= out@ + replace_all(s@.skip(i + pat@.len()), pat@, rep@));
            i = i + pat.len();
        } else {
            let ghost before = out@;
            out.push(s[i]);
            assert(rest.skip(1) =~= s@.skip(i + 1));
            assert(before + (seq![rest[0]] + replace_all(rest.skip(1), pat@, rep@)) =~= out@
                + replace_all(s@.skip(i + 1), pat@, rep@));
            i = i + 1;
        }
    }
    assert(out@ + replace_all(s@.skip(i as int), pat@, rep@) =~= out@);
    out
}

/// Neutralises the `(string_quote ")` directive, which would otherwise open a
/// quoted string that swallows the rest of the file.
pub fn preprocess(input: &str) -> (r: String)
    ensures
        r@ == preprocessed(input@),
{
    let chars = preprocess_chars(input);
    string_from(&chars, 0, chars.len())
}

fn preprocess_chars(input: &str) -> (r: Vec<char>)
    ensures
        r@ == preprocessed(input@),
{
    let s = to_chars(input);
    let pat = to_chars("(string_quote \")");
    let rep = to_chars("(string_quote dquote)");
    proof {
        reveal_strlit("(string_quote \")");
    }
    replace_all_exec(&s, &pat, &rep)
}

/// Reads the S-expressions of a DSN text (after the `string_quote` directive
/// has been neutralised); `None` when the text does not follow the grammar.
pub fn read_sexprs(input: &str) -> (r: Option<Vec<SExpr>>)
    ensures
        read_file(preprocessed(input@)) == match r {
            Some(v) => Some(slice_views(v@)),
            None => None,
        },
{
    let chars = preprocess_chars(input);
    read_all(&chars)
}

} // verus!
