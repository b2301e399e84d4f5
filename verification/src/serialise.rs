use vstd::prelude::*;
use crate::dsn::{Wire, PlacedVia, Wiring, WireV, PlacedViaV, WiringV, TextPair, Text};
use crate::text::to_chars;

verus! {

// ─── Writing a wiring section ───────────────────────────────────────────────

pub open spec fn coords_text(path: Seq<TextPair>) -> Seq<char>
    decreases path.len(),
{
    if path.len() == 0 {
        Seq::empty()
    } else {
        coords_text(path.drop_last()) + " "@ + path.last().0 + " "@ + path.last().1
    }
}

pub open spec fn net_text(net: Option<Text>) -> Seq<char> {
    match net {
        Some(n) => n,
        None => Seq::empty(),
    }
}

/// `  (wire (path LAYER WIDTH X Y ...) (net "NET") (type route))` and a newline.
pub open spec fn wire_line(w: WireV) -> Seq<char> {
    "  (wire "@ + "(path "@ + w.layer + " "@ + w.width + coords_text(w.path) + ")"@ + " (net \""@
        + net_text(w.net) + "\") (type route))\n"@
}

/// `  (via "PADSTACK" X Y (net "NET") (type route))` and a newline.
pub open spec fn via_line(v: PlacedViaV) -> Seq<char> {
    "  (via \""@ + v.padstack + "\" "@ + v.x + " "@ + v.y + " (net \""@ + net_text(v.net)
        + "\") (type route))\n"@
}

/// The lines of the wires with at least two path points.
pub open spec fn wire_lines(ws: Seq<WireV>) -> Seq<char>
    decreases ws.len(),
{
    if ws.len() == 0 {
        Seq::empty()
    } else {
        wire_lines(ws.drop_last()) + if ws.last().path.len() >= 2 {
            wire_line(ws.last())
        } else {
            Seq::empty()
        }
    }
}

pub open spec fn via_lines(vs: Seq<PlacedViaV>) -> Seq<char>
    decreases vs.len(),
{
    if vs.len() == 0 {
        Seq::empty()
    } else {
        via_lines(vs.drop_last()) + via_line(vs.last())
    }
}

/// The DSN `(wiring ...)` section of a wiring.
pub open spec fn wiring_text(w: WiringV) -> Seq<char> {
    "(wiring\n"@ + wire_lines(w.wires) + via_lines(w.vias) + ")"@
}

fn net_str(net: &Option<String>) -> (r: &str)
    ensures
        r@ == net_text(crate::dsn::opt_str(*net)),
{
    match net {
        Some(n) => n.as_str(),
        None => {
            proof {
                reveal_strlit("");
            }
            ""
        },
    }
}

fn append_wire(out: &mut String, w: &Wire)
    ensures
        final(out)@ == old(out)@ + wire_line(w@),
{
    let ghost start = out@;
    out.append("  (wire ");
    out.append("(path ");
    out.append(w.layer.as_str());
    out.append(" ");
    out.append(w.width.as_str());
    let ghost head = out@;
    let mut k: usize = 0;
    while k < w.path.len()
        invariant
            k <= w.path@.len(),
            out@ == head + coords_text(crate::dsn::str_pairs(w.path@).take(k as int)),
        decreases w.path@.len() - k,
    {
        let ghost before = out@;
        out.append(" ");
        out.append(w.path[k].0.as_str());
        out.append(" ");
        out.append(w.path[k].1.as_str());
        proof {
            let ps = crate::dsn::str_pairs(w.path@);
            assert(ps.take(k + 1).drop_last() =~= ps.take(k as int));
            assert(ps.take(k + 1).last() == ps[k as int]);
            assert(ps[k as int] == (w.path@[k as int].0@, w.path@[k as int].1@));
            assert(out@ =~= head + coords_text(ps.take(k + 1)));
        }
        k = k + 1;
    }
    assert(crate::dsn::str_pairs(w.path@).take(w.path@.len() as int) =~= crate::dsn::str_pairs(w.path@));
    out.append(")");
    out.append(" (net \"");
    out.append(net_str(&w.net));
    out.append("\") (type route))\n");
    assert(out@ =~= start + wire_line(w@));
}

fn append_via(out: &mut String, v: &PlacedVia)
    ensures
        final(out)@ == old(out)@ + via_line(v@),
{
    let ghost start = out@;
    out.append("  (via \"");
    out.append(v.padstack.as_str());
    out.append("\" ");
    out.append(v.x.as_str());
    out.append(" ");
    out.append(v.y.as_str());
    out.append(" (net \"");
    out.append(net_str(&v.net));
    out.append("\") (type route))\n");
    assert(out@ =~= start + via_line(v@));
}

/// Formats a wiring as a DSN `(wiring ...)` section; wires with fewer than two
/// path points are left out.
pub fn format_wiring(wiring: &Wiring) -> (r: String)
    ensures
        r@ == wiring_text(wiring@),
{
    let mut out = String::new();
    out.append("(wiring\n");
    let ghost head = out@;
    let ghost ws = wiring@.wires;
    let mut i: usize = 0;
    while i < wiring.wires.len()
        invariant
            i <= wiring.wires@.len(),
            ws == wiring@.wires,
            out@ == head + wire_lines(ws.take(i as int)),
        decreases wiring.wires@.len() - i,
    {
        let w = &wiring.wires[i];
        proof {
            assert(ws.take(i + 1).drop_last() =~= ws.take(i as int));
            assert(ws.take(i + 1).last() == w@);
        }
        if w.path.len() >= 2 {
            append_wire(&mut out, w);
        } else {
            assert(out@ =~= out@ + Seq::<char>::empty());
        }
        assert(out@ =~= head + wire_lines(ws.take(i + 1)));
        i = i + 1;
    }
    assert(ws.take(wiring.wires@.len() as int) =~= ws);
    let ghost mid = out@;
    let ghost vs = wiring@.vias;
    let mut j: usize = 0;
    while j < wiring.vias.len()
        invariant
            j <= wiring.vias@.len(),
            vs == wiring@.vias,
            out@ == mid + via_lines(vs.take(j as int)),
        decreases wiring.vias@.len() - j,
    {
        let v = &wiring.vias[j];
        proof {
            assert(vs.take(j + 1).drop_last() =~= vs.take(j as int));
            assert(vs.take(j + 1).last() == v@);
        }
        append_via(&mut out, v);
        assert(out@ =~= mid + via_lines(vs.take(j + 1)));
        j = j + 1;
    }
    assert(vs.take(wiring.vias@.len() as int) =~= vs);
    out.append(")");
    assert(out@ =~= wiring_text(wiring@));
    out
}

} // verus!

verus! {

// ─── Replacing the wiring section of a DSN text ─────────────────────────────

pub open spec fn ends_head(c: char) -> bool {
    c == ' ' || c == '\n' || c == '\r' || c == '\t' || c == ')'
}

/// `(wiring` at `i`, followed by white space or `)`.
pub open spec fn wiring_head(s: Seq<char>, i: int) -> bool {
    0 <= i && i + 7 < s.len() && s.subrange(i, i + 7) == "(wiring"@ && ends_head(s[i + 7])
}

/// The position of the parenthesis that closes nesting `depth` from `j` on,
/// where double quotes switch string mode (in which parentheses do not count).
pub open spec fn match_close(s: Seq<char>, j: int, depth: int, in_string: bool) -> Option<int>
    decreases s.len() - j,
{
    if j < 0 || j >= s.len() {
        None
    } else {
        let c = s[j];
        if c == '"' {
            match_close(s, j + 1, depth, !in_string)
        } else if c == '(' && !in_string {
            match_close(s, j + 1, depth + 1, in_string)
        } else if c == ')' && !in_string {
            if depth - 1 == 0 {
                Some(j)
            } else {
                match_close(s, j + 1, depth - 1, in_string)
            }
        } else {
            match_close(s, j + 1, depth, in_string)
        }
    }
}

/// The first wiring section (see [`section_start`]) at or after `i`: its first
/// and last positions.
pub open spec fn find_wiring(s: Seq<char>, i: int) -> Option<(int, int)>
    decreases s.len() - i,
{
    if i < 0 || i >= s.len() {
        None
    } else if section_start(s, i) {
        Some((i, match_close(s, i, 0, false)->0))
    } else {
        find_wiring(s, i + 1)
    }
}

/// `(string_quote ` stands right before position `j`: a double quote there is
/// the quote directive's own, which opens no string.
pub open spec fn directive_quote(s: Seq<char>, j: int) -> bool {
    j >= 14 && s.subrange(j - 14, j) == "(string_quote "@
}

/// The nesting depth and the string mode after the first `i` characters of
/// `s`: double quotes (but the quote directive's) switch string mode, in
/// which parentheses do not count.
pub open spec fn scan_state(s: Seq<char>, i: int) -> (int, bool)
    decreases i,
{
    if i <= 0 {
        (0, false)
    } else {
        let (d, q) = scan_state(s, i - 1);
        let c = s[i - 1];
        if c == '"' {
            if directive_quote(s, i - 1) {
                (d, q)
            } else {
                (d, !q)
            }
        } else if c == '(' && !q {
            (d + 1, q)
        } else if c == ')' && !q {
            (d - 1, q)
        } else {
            (d, q)
        }
    }
}

/// A wiring section opens at `i`: a `(wiring` head just inside the root list
/// (at depth one, outside strings) whose list closes.
pub open spec fn section_start(s: Seq<char>, i: int) -> bool {
    &&& s[i] == '('
    &&& scan_state(s, i) == (1int, false)
    &&& wiring_head(s, i)
    &&& match_close(s, i, 0, false) is Some
}

/// The last position of `c` in `s`.
pub open spec fn last_index(s: Seq<char>, c: char) -> Option<int>
    decreases s.len(),
{
    if s.len() == 0 {
        None
    } else if s.last() == c {
        Some(s.len() - 1)
    } else {
        last_index(s.drop_last(), c)
    }
}

/// The DSN text with its wiring section replaced by `section`; without one,
/// `section` goes before the text's last `)` (or, lacking any, at the end).
pub open spec fn replaced_wiring(s: Seq<char>, section: Seq<char>) -> Seq<char> {
    match find_wiring(s, 0) {
        Some((a, b)) => s.take(a) + section + s.skip(b + 1),
        None => match last_index(s, ')') {
            Some(p) => s.take(p) + "\n"@ + section + "\n"@ + ")"@,
            None => s + "\n"@ + section,
        },
    }
}

proof fn lemma_match_close_bounds(s: Seq<char>, j: int, depth: int, in_string: bool)
    ensures
        match_close(s, j, depth, in_string) matches Some(k) ==> j <= k < s.len(),
    decreases s.len() - j,
{
    if 0 <= j < s.len() {
        lemma_match_close_bounds(s, j + 1, depth, !in_string);
        lemma_match_close_bounds(s, j + 1, depth + 1, in_string);
        lemma_match_close_bounds(s, j + 1, depth - 1, in_string);
        lemma_match_close_bounds(s, j + 1, depth, in_string);
    }
}

/// A match found is a closing parenthesis.
pub(crate) proof fn lemma_match_close_closes(s: Seq<char>, j: int, depth: int, in_string: bool)
    ensures
        match_close(s, j, depth, in_string) matches Some(k) ==> 0 <= k < s.len() && s[k] == ')',
    decreases s.len() - j,
{
    if 0 <= j < s.len() {
        lemma_match_close_closes(s, j + 1, depth, !in_string);
        lemma_match_close_closes(s, j + 1, depth + 1, in_string);
        lemma_match_close_closes(s, j + 1, depth - 1, in_string);
        lemma_match_close_closes(s, j + 1, depth, in_string);
    }
}

pub(crate) proof fn lemma_find_wiring_bounds(s: Seq<char>, i: int)
    ensures
        find_wiring(s, i) matches Some((a, b)) ==> 0 <= i <= a <= b < s.len(),
    decreases s.len() - i,
{
    if 0 <= i && i < s.len() {
        lemma_match_close_bounds(s, i, 0, false);
        lemma_find_wiring_bounds(s, i + 1);
    }
}

proof fn lemma_last_index_bounds(s: Seq<char>, c: char)
    ensures
        last_index(s, c) matches Some(p) ==> 0 <= p < s.len(),
    decreases s.len(),
{
    if s.len() > 0 && s.last() != c {
        lemma_last_index_bounds(s.drop_last(), c);
    }
}

fn match_close_exec(s: &Vec<char>, start: usize) -> (r: Option<usize>)
    requires
        start < s@.len(),
        s@[start as int] == '(',
    ensures
        match r {
            Some(k) => match_close(s@, start as int, 0, false) == Some(k as int),
            None => match_close(s@, start as int, 0, false) is None,
        },
{
    let mut depth: usize = 0;
    let mut j = start;
    let mut in_string = false;
    while j < s.len()
        invariant
            start <= j <= s@.len(),
            j > start ==> depth >= 1,
            depth <= j - start,
            j == start ==> depth == 0 && !in_string,
            match_close(s@, start as int, 0, false) == match_close(s@, j as int, depth as int, in_string),
            s@[start as int] == '(',
            start < s@.len(),
        decreases s@.len() - j,
    {
        let c = s[j];
        if c == '"' {
            in_string = !in_string;
        } else if c == '(' && !in_string {
            depth = depth + 1;
        } else if c == ')' && !in_string {
            depth = depth - 1;
            if depth == 0 {
                return Some(j);
            }
        }
        j = j + 1;
    }
    None
}

fn wiring_head_exec(s: &Vec<char>, i: usize) -> (r: bool)
    requires
        i < s@.len(),
    ensures
        r == wiring_head(s@, i as int),
{
    let pat = to_chars("(wiring");
    proof {
        reveal_strlit("(wiring");
    }
    if s.len() - i < 8 {
        return false;
    }
    let mut k: usize = 0;
    while k < 7
        invariant
            i + 8 <= s@.len(),
            pat@ == "(wiring"@,
            pat@.len() == 7,
            k <= 7,
            forall|m: int| 0 <= m < k ==> s@[i + m] == pat@[m],
        decreases 7 - k,
    {
        assert(i + k < s.len());
        if s[i + k] != pat[k] {
            assert(s@.subrange(i as int, i + 7)[k as int] != pat@[k as int]);
            return false;
        }
        k = k + 1;
    }
    assert(s@.subrange(i as int, i + 7) =~= pat@);
    assert(i + 7 < s.len());
    let c = s[i + 7];
    c == ' ' || c == '\n' || c == '\r' || c == '\t' || c == ')'
}

fn directive_quote_exec(s: &Vec<char>, j: usize) -> (r: bool)
    requires
        j <= s@.len(),
    ensures
        r == directive_quote(s@, j as int),
{
    if j < 14 {
        return false;
    }
    let pat = to_chars("(string_quote ");
    proof {
        reveal_strlit("(string_quote ");
    }
    let start = j - 14;
    let mut k: usize = 0;
    while k < 14
        invariant
            start + 14 == j,
            j <= s@.len(),
            pat@ == "(string_quote "@,
            pat@.len() == 14,
            k <= 14,
            forall|m: int| 0 <= m < k ==> s@[start + m] == pat@[m],
        decreases 14 - k,
    {
        if s[start + k] != pat[k] {
            assert(s@.subrange(start as int, j as int)[k as int] != pat@[k as int]);
            return false;
        }
        k = k + 1;
    }
    assert(s@.subrange(start as int, j as int) =~= pat@);
    true
}

/// Locates the wiring section, the first `(wiring ...)` block just inside
/// the root `(pcb ...)` list: the positions of its opening and closing
/// parentheses.
pub fn find_wiring_section(s: &Vec<char>) -> (r: Option<(usize, usize)>)
    ensures
        match r {
            Some((a, b)) => find_wiring(s@, 0) == Some((a as int, b as int)),
            None => find_wiring(s@, 0) is None,
        },
{
    let mut i: usize = 0;
    let mut depth: i128 = 0;
    let mut in_string = false;
    while i < s.len()
        invariant
            i <= s@.len(),
            find_wiring(s@, 0) == find_wiring(s@, i as int),
            scan_state(s@, i as int) == (depth as int, in_string),
            -(i as int) <= depth <= i,
        decreases s@.len() - i,
    {
        let c = s[i];
        if c == '(' && depth == 1 && !in_string && wiring_head_exec(s, i) {
            match match_close_exec(s, i) {
                Some(j) => {
                    return Some((i, j));
                },
                None => {},
            }
        }
        if c == '"' {
            if !directive_quote_exec(s, i) {
                in_string = !in_string;
            }
        } else if c == '(' && !in_string {
            depth = depth + 1;
        } else if c == ')' && !in_string {
            depth = depth - 1;
        }
        i = i + 1;
    }
    None
}

fn last_index_exec(s: &Vec<char>, c: char) -> (r: Option<usize>)
    ensures
        match r {
            Some(p) => last_index(s@, c) == Some(p as int),
            None => last_index(s@, c) is None,
        },
{
    let mut n = s.len();
    assert(s@.take(n as int) =~= s@);
    while n > 0
        invariant
            n <= s@.len(),
            last_index(s@, c) == last_index(s@.take(n as int), c),
        decreases n,
    {
        assert(s@.take(n as int).last() == s@[n - 1]);
        if s[n - 1] == c {
            return Some(n - 1);
        }
        assert(s@.take(n as int).drop_last() =~= s@.take(n - 1));
        n = n - 1;
    }
    None
}

fn push_range(out: &mut Vec<char>, s: &Vec<char>, from: usize, to: usize)
    requires
        from <= to <= s@.len(),
    ensures
        final(out)@ == old(out)@ + s@.subrange(from as int, to as int),
{
    let ghost start = out@;
    let mut k = from;
    while k < to
        invariant
            from <= k <= to <= s@.len(),
            out@ == start + s@.subrange(from as int, k as int),
        decreases to - k,
    {
        out.push(s[k]);
        assert(out@ =~= start + s@.subrange(from as int, k + 1));
        k = k + 1;
    }
}

/// Replaces the `(wiring ...)` section of a DSN text with the wiring given, or
/// inserts one before the final closing parenthesis when there is none.
pub fn write_wiring(original_dsn: &str, wiring: &Wiring) -> (r: String)
    ensures
        r@ == replaced_wiring(original_dsn@, wiring_text(wiring@)),
{
    let new_section = format_wiring(wiring);
    let s = to_chars(original_dsn);
    let sec = to_chars(new_section.as_str());
    let mut out: Vec<char> = Vec::new();
    match find_wiring_section(&s) {
        Some((start, end)) => {
            proof {
                lemma_find_wiring_bounds(s@, 0);
            }
            assert(end < s.len());
            push_range(&mut out, &s, 0, start);
            push_range(&mut out, &sec, 0, sec.len());
            push_range(&mut out, &s, end + 1, s.len());
            assert(s@.subrange(0, start as int) =~= s@.take(start as int));
            assert(sec@.subrange(0, sec@.len() as int) =~= sec@);
            assert(s@.subrange(end + 1, s@.len() as int) =~= s@.skip(end + 1));
        },
        None => {
            let nl = to_chars("\n");
            let close = to_chars(")");
            match last_index_exec(&s, ')') {
                Some(pos) => {
                    proof {
                        lemma_last_index_bounds(s@, ')');
                    }
                    push_range(&mut out, &s, 0, pos);
                    push_range(&mut out, &nl, 0, nl.len());
                    push_range(&mut out, &sec, 0, sec.len());
                    push_range(&mut out, &nl, 0, nl.len());
                    push_range(&mut out, &close, 0, close.len());
                    assert(s@.subrange(0, pos as int) =~= s@.take(pos as int));
                    assert(sec@.subrange(0, sec@.len() as int) =~= sec@);
                    assert(nl@.subrange(0, nl@.len() as int) =~= nl@);
                    assert(close@.subrange(0, close@.len() as int) =~= close@);
                },
                None => {
                    push_range(&mut out, &s, 0, s.len());
                    push_range(&mut out, &nl, 0, nl.len());
                    push_range(&mut out, &sec, 0, sec.len());
                    assert(s@.subrange(0, s@.len() as int) =~= s@);
                    assert(sec@.subrange(0, sec@.len() as int) =~= sec@);
                    assert(nl@.subrange(0, nl@.len() as int) =~= nl@);
                },
            }
        },
    }
    let n = out.len();
    crate::text::string_from(&out, 0, n)
}

} // verus!
