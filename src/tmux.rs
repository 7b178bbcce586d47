use vstd::prelude::*;

use crate::state::same_text;
use crate::tail::{trim, trim_text};

verus! {

/// One window of the multiplexer session.
pub struct WindowInfo {
    pub index: u32,
    pub name: String,
    pub is_active: bool,
    pub pane_path: String,
}

/// The assistant pane of one window: its foreground command and identifier.
pub struct PaneInfo {
    pub window_index: u32,
    pub command: String,
    pub pane_id: String,
}

/// First index at or after `from` where `s` holds `c`, or `s.len()` if none.
pub open spec fn next_of(s: Seq<char>, from: int, c: char) -> int
    decreases s.len() - from,
{
    if from >= s.len() {
        s.len() as int
    } else if s[from] == c {
        from
    } else {
        next_of(s, from + 1, c)
    }
}

/// `l` without one carriage return at its end.
pub open spec fn strip_cr(l: Seq<char>) -> Seq<char> {
    if l.len() > 0 && l.last() == '\r' {
        l.drop_last()
    } else {
        l
    }
}

/// The lines of `s` from position `from` on, as `str::lines` yields them:
/// a line ends at a line feed, or a carriage return and line feed, or at the
/// end of the text; an empty piece after the last line feed is no line.
pub open spec fn lines_from(s: Seq<char>, from: int) -> Seq<Seq<char>>
    decreases s.len() - from,
{
    if from < 0 || from >= s.len() {
        seq![]
    } else {
        let e = next_of(s, from, '\n');
        if from <= e && e < s.len() {
            seq![strip_cr(s.subrange(from, e))] + lines_from(s, e + 1)
        } else {
            seq![s.subrange(from, s.len() as int)]
        }
    }
}

/// The lines of `s`.
pub open spec fn text_lines(s: Seq<char>) -> Seq<Seq<char>> {
    lines_from(s, 0)
}

/// Numeric value of a string of decimal digits.
pub open spec fn digits_value(d: Seq<char>) -> int
    decreases d.len(),
{
    if d.len() == 0 {
        0
    } else {
        digits_value(d.drop_last()) * 10 + (d.last() as int - '0' as int)
    }
}

/// Whether every character of `d` is an ASCII digit.
pub open spec fn all_digits(d: Seq<char>) -> bool {
    forall|i: int| 0 <= i < d.len() ==> '0' <= #[trigger] d[i] <= '9'
}

/// The `u32` that `s` spells in decimal, with an optional leading `+`, as
/// `str::parse::<u32>` reads it.
pub open spec fn decimal_u32(s: Seq<char>) -> Option<u32> {
    let d = if s.len() > 0 && s[0] == '+' {
        s.drop_first()
    } else {
        s
    };
    if d.len() > 0 && all_digits(d) && digits_value(d) <= u32::MAX {
        Some(digits_value(d) as u32)
    } else {
        None
    }
}

/// The four `|`-separated fields of a line, the last one holding the rest
/// of the line; `None` for a line with fewer than three separators.
pub open spec fn four_fields(l: Seq<char>) -> Option<(Seq<char>, Seq<char>, Seq<char>, Seq<char>)> {
    let a = next_of(l, 0, '|');
    let b = next_of(l, a + 1, '|');
    let c = next_of(l, b + 1, '|');
    if c < l.len() {
        Some((l.subrange(0, a), l.subrange(a + 1, b), l.subrange(b + 1, c), l.subrange(c + 1, l.len() as int)))
    } else {
        None
    }
}

proof fn lemma_next_of_bounds(s: Seq<char>, from: int, c: char)
    requires
        0 <= from,
    ensures
        from <= s.len() ==> from <= next_of(s, from, c) <= s.len(),
        next_of(s, from, c) < s.len() ==> s[next_of(s, from, c)] == c,
        from > s.len() ==> next_of(s, from, c) == s.len(),
    decreases s.len() - from,
{
    if from < s.len() && s[from] != c {
        lemma_next_of_bounds(s, from + 1, c);
    }
}

/// Index of the first `c` in `s` at or after `from`, or the length of `s`.
pub fn find_char(s: &str, from: usize, c: char) -> (r: usize)
    ensures
        r == next_of(s@, from as int, c),
{
    let n = s.unicode_len();
    let mut i = from;
    while i < n
        invariant
            n == s@.len(),
            from <= i,
            next_of(s@, from as int, c) == next_of(s@, i as int, c),
        decreases n - i,
    {
        if s.get_char(i) == c {
            return i;
        }
        i = i + 1;
    }
    n
}

/// The lines of `s`, as `str::lines` yields them.
pub fn lines_of(s: &str) -> (r: Vec<String>)
    ensures
        r@.map_values(|l: String| l@) == text_lines(s@),
{
    let n = s.unicode_len();
    let mut r: Vec<String> = Vec::new();
    let mut pos: usize = 0;
    while pos < n
        invariant
            n == s@.len(),
            pos <= n,
            r@.map_values(|l: String| l@) + lines_from(s@, pos as int) == text_lines(s@),
        decreases n - pos,
    {
        let e = find_char(s, pos, '\n');
        proof {
            lemma_next_of_bounds(s@, pos as int, '\n');
        }
        let ghost rest = lines_from(s@, pos as int);
        let ghost before = r@.map_values(|l: String| l@);
        if e < n {
            let mut end = e;
            if e > pos && s.get_char(e - 1) == '\r' {
                end = e - 1;
            }
            let line = s.substring_char(pos, end).to_owned();
            proof {
                assert(line@ == strip_cr(s@.subrange(pos as int, e as int)));
                assert(rest == seq![line@] + lines_from(s@, e + 1));
            }
            r.push(line);
            proof {
                assert(r@.map_values(|l: String| l@) =~= before.push(line@));
                assert(before + rest =~= before.push(line@) + lines_from(s@, e + 1));
            }
            pos = e + 1;
        } else {
            let line = s.substring_char(pos, n).to_owned();
            r.push(line);
            proof {
                assert(lines_from(s@, n as int) =~= Seq::<Seq<char>>::empty());
                assert(r@.map_values(|l: String| l@) =~= before + rest);
                assert(before + rest =~= before + rest + lines_from(s@, n as int));
            }
            pos = n;
        }
    }
    proof {
        assert(lines_from(s@, pos as int) =~= Seq::<Seq<char>>::empty());
        assert(r@.map_values(|l: String| l@) + lines_from(s@, pos as int) =~= r@.map_values(|l: String| l@));
    }
    r
}

proof fn lemma_digits_value_nonneg(d: Seq<char>)
    requires
        all_digits(d),
    ensures
        digits_value(d) >= 0,
    decreases d.len(),
{
    if d.len() > 0 {
        lemma_digits_value_nonneg(d.drop_last());
    }
}

/// A string of digits is worth at least any of its prefixes.
proof fn lemma_digits_value_prefix(d: Seq<char>, k: int)
    requires
        all_digits(d),
        0 <= k <= d.len(),
    ensures
        digits_value(d) >= digits_value(d.take(k)),
    decreases d.len(),
{
    if k < d.len() {
        let p = d.drop_last();
        lemma_digits_value_prefix(p, k);
        lemma_digits_value_nonneg(p);
        assert(p.take(k) =~= d.take(k));
        assert(d.last() == d[d.len() - 1]);
    } else {
        assert(d.take(k) =~= d);
    }
}

/// Reads a decimal `u32` as `str::parse::<u32>` does.
pub fn parse_u32(s: &str) -> (r: Option<u32>)
    ensures
        r == decimal_u32(s@),
{
    let n = s.unicode_len();
    let mut start: usize = 0;
    if n > 0 && s.get_char(0) == '+' {
        start = 1;
    }
    let ghost d = if s@.len() > 0 && s@[0] == '+' {
        s@.drop_first()
    } else {
        s@
    };
    proof {
        assert(d =~= s@.subrange(start as int, n as int));
    }
    if start == n {
        return None;
    }
    let mut v: u64 = 0;
    let mut i: usize = start;
    proof {
        assert(d.take(0) =~= Seq::<char>::empty());
    }
    while i < n
        invariant
            n == s@.len(),
            d == s@.subrange(start as int, n as int),
            d == (if s@.len() > 0 && s@[0] == '+' {
                s@.drop_first()
            } else {
                s@
            }),
            start <= i <= n,
            all_digits(d.take(i - start)),
            v == digits_value(d.take(i - start)),
            v <= u32::MAX,
        decreases n - i,
    {
        let c = s.get_char(i);
        let ghost k = i - start;
        proof {
            assert(d[k] == c);
            assert(d.take(k + 1).drop_last() =~= d.take(k));
        }
        if (c as u32) < ('0' as u32) || (c as u32) > ('9' as u32) {
            assert(!all_digits(d));
            assert(decimal_u32(s@) is None);
            return None;
        }
        let nv = v * 10 + (c as u32 - '0' as u32) as u64;
        proof {
            assert(all_digits(d.take(k + 1)));
            assert(nv == digits_value(d.take(k + 1)));
        }
        if nv > u32::MAX as u64 {
            proof {
                if all_digits(d) {
                    lemma_digits_value_prefix(d, k + 1);
                }
                assert(decimal_u32(s@) is None);
            }
            return None;
        }
        v = nv;
        i = i + 1;
    }
    proof {
        assert(d.take(n - start) =~= d);
    }
    Some(v as u32)
}

/// Splits a line at its first three `|`.
pub fn split_four(l: &str) -> (r: Option<(String, String, String, String)>)
    ensures
        match r {
            Some((a, b, c, d)) => four_fields(l@) == Some((a@, b@, c@, d@)),
            None => four_fields(l@) is None,
        },
{
    let n = l.unicode_len();
    let a = find_char(l, 0, '|');
    proof {
        lemma_next_of_bounds(l@, 0, '|');
        lemma_next_of_bounds(l@, a + 1, '|');
    }
    if a >= n {
        proof {
            lemma_next_of_bounds(l@, next_of(l@, a + 1, '|') + 1, '|');
        }
        return None;
    }
    let b = find_char(l, a + 1, '|');
    proof {
        lemma_next_of_bounds(l@, b + 1, '|');
    }
    if b >= n {
        return None;
    }
    let c = find_char(l, b + 1, '|');
    if c >= n {
        return None;
    }
    Some(
        (
            l.substring_char(0, a).to_owned(),
            l.substring_char(a + 1, b).to_owned(),
            l.substring_char(b + 1, c).to_owned(),
            l.substring_char(c + 1, n).to_owned(),
        ),
    )
}

/// The lines of `lines` that hold four fields, in order.
pub open spec fn field_lines(lines: Seq<Seq<char>>) -> Seq<Seq<char>>
    decreases lines.len(),
{
    if lines.len() == 0 {
        seq![]
    } else {
        let p = field_lines(lines.drop_last());
        if four_fields(lines.last()) is Some {
            p.push(lines.last())
        } else {
            p
        }
    }
}

/// The window that a listing line describes: index (0 where the first field
/// is no number), name, whether it is active (`1`), and the pane's directory.
pub open spec fn window_of_line(w: WindowInfo, l: Seq<char>) -> bool {
    match four_fields(l) {
        Some((i, n, a, p)) => {
            &&& w.index == match decimal_u32(i) {
                Some(v) => v,
                None => 0,
            }
            &&& w.name@ == n
            &&& w.is_active == (a == "1"@)
            &&& w.pane_path@ == p
        },
        None => false,
    }
}

/// The lines of `lines` that hold four fields and whose second field, the
/// pane index within the window, is `1`: the assistant's pane.
pub open spec fn assistant_pane_lines(lines: Seq<Seq<char>>) -> Seq<Seq<char>>
    decreases lines.len(),
{
    if lines.len() == 0 {
        seq![]
    } else {
        let p = assistant_pane_lines(lines.drop_last());
        match four_fields(lines.last()) {
            Some((_, k, _, _)) => if k == "1"@ {
                p.push(lines.last())
            } else {
                p
            },
            None => p,
        }
    }
}

/// The pane that a listing line describes: window index (0 where the first
/// field is no number), foreground command and pane identifier.
pub open spec fn pane_of_line(p: PaneInfo, l: Seq<char>) -> bool {
    match four_fields(l) {
        Some((i, _, c, id)) => {
            &&& p.window_index == match decimal_u32(i) {
                Some(v) => v,
                None => 0,
            }
            &&& p.command@ == c
            &&& p.pane_id@ == id
        },
        None => false,
    }
}

/// Windows from the output of a window listing whose lines read
/// `index|name|active|path`; lines with fewer fields are skipped.
pub fn list_windows(out: &str) -> (r: Vec<WindowInfo>)
    ensures
        r@.len() == field_lines(text_lines(out@)).len(),
        forall|i: int| 0 <= i < r@.len() ==> window_of_line(#[trigger] r@[i], field_lines(text_lines(out@))[i]),
{
    let lines = lines_of(out);
    let ghost all = text_lines(out@);
    let mut r: Vec<WindowInfo> = Vec::new();
    let mut i: usize = 0;
    proof {
        assert(all.take(0) =~= Seq::<Seq<char>>::empty());
    }
    while i < lines.len()
        invariant
            all == lines@.map_values(|l: String| l@),
            i <= lines@.len(),
            r@.len() == field_lines(all.take(i as int)).len(),
            forall|j: int| 0 <= j < r@.len() ==> window_of_line(#[trigger] r@[j], field_lines(all.take(i as int))[j]),
        decreases lines@.len() - i,
    {
        let ghost t = all.take(i + 1);
        proof {
            assert(t.drop_last() =~= all.take(i as int));
            assert(t.last() == lines@[i as int]@);
        }
        match split_four(lines[i].as_str()) {
            Some((idx, name, active, path)) => {
                let index = match parse_u32(idx.as_str()) {
                    Some(v) => v,
                    None => 0,
                };
                let is_active = same_text(active.as_str(), "1");
                r.push(WindowInfo { index, name, is_active, pane_path: path });
            },
            None => {},
        }
        i = i + 1;
    }
    proof {
        assert(all.take(i as int) =~= all);
    }
    r
}

/// Window names from the output of a listing with one name per line.
pub fn list_window_names(out: &str) -> (r: Vec<String>)
    ensures
        r@.map_values(|l: String| l@) == text_lines(out@),
{
    lines_of(out)
}

/// Assistant panes from the output of a pane listing whose lines read
/// `window_index|pane_index|command|pane_id`; only panes with index `1`
/// count, and lines with fewer fields are skipped.
pub fn list_pane_commands(out: &str) -> (r: Vec<PaneInfo>)
    ensures
        r@.len() == assistant_pane_lines(text_lines(out@)).len(),
        forall|i: int| 0 <= i < r@.len() ==> pane_of_line(#[trigger] r@[i], assistant_pane_lines(text_lines(out@))[i]),
{
    let lines = lines_of(out);
    let ghost all = text_lines(out@);
    let mut r: Vec<PaneInfo> = Vec::new();
    let mut i: usize = 0;
    proof {
        assert(all.take(0) =~= Seq::<Seq<char>>::empty());
    }
    while i < lines.len()
        invariant
            all == lines@.map_values(|l: String| l@),
            i <= lines@.len(),
            r@.len() == assistant_pane_lines(all.take(i as int)).len(),
            forall|j: int| 0 <= j < r@.len() ==> pane_of_line(#[trigger] r@[j], assistant_pane_lines(all.take(i as int))[j]),
        decreases lines@.len() - i,
    {
        let ghost t = all.take(i + 1);
        proof {
            assert(t.drop_last() =~= all.take(i as int));
            assert(t.last() == lines@[i as int]@);
        }
        match split_four(lines[i].as_str()) {
            Some((idx, pane_index, command, pane_id)) => {
                if same_text(pane_index.as_str(), "1") {
                    let window_index = match parse_u32(idx.as_str()) {
                        Some(v) => v,
                        None => 0,
                    };
                    r.push(PaneInfo { window_index, command, pane_id });
                }
            },
            None => {},
        }
        i = i + 1;
    }
    proof {
        assert(all.take(i as int) =~= all);
    }
    r
}

/// The pane identifier in the output of a pane query: the output trimmed.
pub fn get_claude_pane_id(out: &str) -> (r: String)
    ensures
        r@ == trim(out@),
{
    trim_text(out)
}

} // verus!
