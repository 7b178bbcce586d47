use vstd::prelude::*;

verus! {

/// At most this many bytes at the end of a log file are read for its last line.
pub const TAIL_WINDOW: u64 = 1024;

/// Whether `c` has Unicode's White_Space property, the set that `str::trim` strips.
pub open spec fn is_space(c: char) -> bool {
    let u = c as u32;
    (0x9 <= u && u <= 0xd) || u == 0x20 || u == 0x85 || u == 0xa0 || u == 0x1680 || (0x2000 <= u
        && u <= 0x200a) || u == 0x2028 || u == 0x2029 || u == 0x202f || u == 0x205f || u == 0x3000
}

/// The pieces of `s` between line feeds, in order; the line feeds themselves are dropped.
pub open spec fn split_lines(s: Seq<char>) -> Seq<Seq<char>>
    decreases s.len(),
{
    if s.len() == 0 {
        seq![Seq::empty()]
    } else {
        let p = split_lines(s.drop_last());
        if s.last() == '\n' {
            p.push(Seq::empty())
        } else {
            p.update(p.len() - 1, p.last().push(s.last()))
        }
    }
}

/// `s` without its leading white space.
pub open spec fn trim_start(s: Seq<char>) -> Seq<char>
    decreases s.len(),
{
    if s.len() > 0 && is_space(s[0]) {
        trim_start(s.drop_first())
    } else {
        s
    }
}

/// `s` without its trailing white space.
pub open spec fn trim_end(s: Seq<char>) -> Seq<char>
    decreases s.len(),
{
    if s.len() > 0 && is_space(s.last()) {
        trim_end(s.drop_last())
    } else {
        s
    }
}

/// `s` without white space at either end.
pub open spec fn trim(s: Seq<char>) -> Seq<char> {
    trim_end(trim_start(s))
}

/// The trimmed form of the last line that is not blank, if any.
pub open spec fn last_nonblank(lines: Seq<Seq<char>>) -> Option<Seq<char>>
    decreases lines.len(),
{
    if lines.len() == 0 {
        None
    } else if trim(lines.last()).len() > 0 {
        Some(trim(lines.last()))
    } else {
        last_nonblank(lines.drop_last())
    }
}

/// The lines that count: all of them, or all but the first when the first was cut.
pub open spec fn eligible(lines: Seq<Seq<char>>, discard_first: bool) -> Seq<Seq<char>> {
    if discard_first && lines.len() > 0 {
        lines.drop_first()
    } else {
        lines
    }
}

/// The line that a tail read yields from `text`.
pub open spec fn tail_line(text: Seq<char>, discard_first: bool) -> Option<Seq<char>> {
    last_nonblank(eligible(split_lines(text), discard_first))
}

/// Offset at which the tail of a file of `len` bytes starts.
pub fn tail_start(len: u64) -> (r: u64)
    ensures
        r == if len > TAIL_WINDOW {
            len - TAIL_WINDOW
        } else {
            0
        },
{
    if len > TAIL_WINDOW {
        len - TAIL_WINDOW
    } else {
        0
    }
}

/// Whether `c` is white space in the sense of `is_space`.
pub fn is_space_char(c: char) -> (r: bool)
    ensures
        r == is_space(c),
{
    let u = c as u32;
    (0x9 <= u && u <= 0xd) || u == 0x20 || u == 0x85 || u == 0xa0 || u == 0x1680 || (0x2000 <= u
        && u <= 0x200a) || u == 0x2028 || u == 0x2029 || u == 0x202f || u == 0x205f || u == 0x3000
}

proof fn lemma_split_lines_nonempty(s: Seq<char>)
    ensures
        split_lines(s).len() >= 1,
    decreases s.len(),
{
    if s.len() > 0 {
        lemma_split_lines_nonempty(s.drop_last());
    }
}

proof fn lemma_trim_start(l: Seq<char>, a: int)
    requires
        0 <= a <= l.len(),
        forall|k: int| 0 <= k < a ==> is_space(l[k]),
        a < l.len() ==> !is_space(l[a]),
    ensures
        trim_start(l) == l.subrange(a, l.len() as int),
    decreases a,
{
    if a == 0 {
        assert(l.subrange(0, l.len() as int) =~= l);
    } else {
        let d = l.drop_first();
        lemma_trim_start(d, a - 1);
        assert(d.subrange(a - 1, d.len() as int) =~= l.subrange(a, l.len() as int));
    }
}

proof fn lemma_trim_end(l: Seq<char>, b: int)
    requires
        0 <= b <= l.len(),
        forall|k: int| b <= k < l.len() ==> is_space(l[k]),
        b > 0 ==> !is_space(l[b - 1]),
    ensures
        trim_end(l) == l.subrange(0, b),
    decreases l.len() - b,
{
    if b == l.len() {
        assert(l.subrange(0, b) =~= l);
    } else {
        let d = l.drop_last();
        lemma_trim_end(d, b);
        assert(d.subrange(0, b) =~= l.subrange(0, b));
    }
}

/// Trimming a line whose first and last non-space characters are at `a` and `b`.
proof fn lemma_trim_range(l: Seq<char>, a: int, b: int)
    requires
        0 <= a <= b < l.len(),
        !is_space(l[a]),
        !is_space(l[b]),
        forall|k: int| 0 <= k < a ==> is_space(l[k]),
        forall|k: int| b < k < l.len() ==> is_space(l[k]),
    ensures
        trim(l) == l.subrange(a, b + 1),
{
    lemma_trim_start(l, a);
    let t = l.subrange(a, l.len() as int);
    lemma_trim_end(t, b + 1 - a);
    assert(t.subrange(0, b + 1 - a) =~= l.subrange(a, b + 1));
}

/// A line of white space alone trims to nothing.
proof fn lemma_trim_blank(l: Seq<char>)
    requires
        forall|k: int| 0 <= k < l.len() ==> is_space(l[k]),
    ensures
        trim(l).len() == 0,
{
    lemma_trim_start(l, l.len() as int);
}

/// `text` without white space at either end, as `str::trim` gives it.
pub fn trim_text(text: &str) -> (r: String)
    ensures
        r@ == trim(text@),
{
    let ghost s = text@;
    let n = text.unicode_len();
    let mut a: usize = 0;
    while a < n && is_space_char(text.get_char(a))
        invariant
            n == s.len(),
            s == text@,
            a <= n,
            forall|k: int| 0 <= k < a ==> is_space(s[k]),
        decreases n - a,
    {
        a = a + 1;
    }
    if a == n {
        proof {
            lemma_trim_blank(s);
        }
        return String::new();
    }
    let mut b: usize = n - 1;
    while is_space_char(text.get_char(b))
        invariant
            n == s.len(),
            s == text@,
            a <= b < n,
            !is_space(s[a as int]),
            forall|k: int| b < k < n ==> is_space(s[k]),
        decreases b,
    {
        b = b - 1;
    }
    proof {
        lemma_trim_range(s, a as int, b as int);
    }
    text.substring_char(a, b + 1).to_owned()
}

proof fn lemma_split_no_newline(g: Seq<char>)
    requires
        forall|i: int| 0 <= i < g.len() ==> g[i] != '\n',
    ensures
        split_lines(g) == seq![g],
    decreases g.len(),
{
    if g.len() > 0 {
        let d = g.drop_last();
        lemma_split_no_newline(d);
        assert(g.last() == g[g.len() - 1]);
        assert(d.push(g.last()) =~= g);
        assert(seq![d].update(0, d.push(g.last())) =~= seq![g]);
    } else {
        assert(g =~= Seq::<char>::empty());
    }
}

proof fn lemma_split_after_newline(g: Seq<char>, t: Seq<char>)
    requires
        forall|i: int| 0 <= i < g.len() ==> g[i] != '\n',
    ensures
        split_lines(g + seq!['\n'] + t) == seq![g] + split_lines(t),
    decreases t.len(),
{
    let h = g + seq!['\n'];
    if t.len() == 0 {
        assert(h + t =~= h);
        assert(h.drop_last() =~= g);
        lemma_split_no_newline(g);
        assert(seq![g].push(Seq::<char>::empty()) =~= seq![g] + seq![Seq::<char>::empty()]);
    } else {
        let d = t.drop_last();
        lemma_split_after_newline(g, d);
        lemma_split_lines_nonempty(d);
        assert((h + t).drop_last() =~= h + d);
        assert((h + t).last() == t.last());
        let p = split_lines(d);
        if t.last() == '\n' {
            assert((seq![g] + p).push(Seq::<char>::empty()) =~= seq![g] + p.push(Seq::<char>::empty()));
        } else {
            let q = seq![g] + p;
            assert(q.last() == p.last());
            assert(q.update(q.len() - 1, q.last().push(t.last())) =~= seq![g] + p.update(
                p.len() - 1,
                p.last().push(t.last()),
            ));
        }
    }
}

/// When the tail starts inside a line, that cut line never decides the
/// result: the tail reads as if it began after the cut line's end.
pub proof fn lemma_cut_line_ignored(g: Seq<char>, t: Seq<char>)
    requires
        forall|i: int| 0 <= i < g.len() ==> g[i] != '\n',
    ensures
        tail_line(g + seq!['\n'] + t, true) == tail_line(t, false),
{
    lemma_split_after_newline(g, t);
    assert((seq![g] + split_lines(t)).drop_first() =~= split_lines(t));
}

/// The last non-blank line of `tail`, trimmed, skipping the first line when
/// `discard_first` holds (the tail then starts in the middle of a line).
#[verifier::rlimit(40)]
pub fn last_nonempty_line(tail: &str, discard_first: bool) -> (r: Option<String>)
    ensures
        match r {
            Some(l) => tail_line(tail@, discard_first) == Some(l@),
            None => tail_line(tail@, discard_first) is None,
        },
{
    let ghost s = tail@;
    let n = tail.unicode_len();
    let mut start: usize = 0;
    let mut first_ns: Option<usize> = None;
    let mut last_ns: usize = 0;
    let mut at_first = true;
    let mut best: Option<(usize, usize)> = None;
    let mut i: usize = 0;
    proof {
        assert(s.take(0) =~= Seq::<char>::empty());
    }
    while i < n
        invariant
            n == s.len(),
            s == tail@,
            start <= i <= n,
            split_lines(s.take(i as int)).last() == s.subrange(start as int, i as int),
            split_lines(s.take(i as int)).len() >= 1,
            at_first == (split_lines(s.take(i as int)).len() == 1),
            match first_ns {
                None => forall|k: int| start <= k < i ==> is_space(s[k]),
                Some(a) => {
                    &&& start <= a <= last_ns < i
                    &&& !is_space(s[a as int])
                    &&& !is_space(s[last_ns as int])
                    &&& forall|k: int| start <= k < a ==> is_space(s[k])
                    &&& forall|k: int| last_ns < k < i ==> is_space(s[k])
                },
            },
            match best {
                Some((a, b)) => {
                    &&& a <= b <= n
                    &&& last_nonblank(
                        eligible(split_lines(s.take(i as int)).drop_last(), discard_first),
                    ) == Some(s.subrange(a as int, b as int))
                },
                None => last_nonblank(
                    eligible(split_lines(s.take(i as int)).drop_last(), discard_first),
                ) is None,
            },
        decreases n - i,
    {
        let c = tail.get_char(i);
        let ghost old_lines = split_lines(s.take(i as int));
        let ghost cur = s.subrange(start as int, i as int);
        proof {
            assert(s.take(i + 1).drop_last() =~= s.take(i as int));
            assert(s.take(i + 1).last() == c);
        }
        if c == '\n' {
            let ghost new_lines = split_lines(s.take(i + 1));
            proof {
                assert(new_lines == old_lines.push(Seq::empty()));
                assert(new_lines.drop_last() =~= old_lines);
                assert(old_lines =~= old_lines.drop_last().push(cur));
                let done = old_lines.drop_last();
                let el = eligible(done, discard_first);
                if !(discard_first && at_first) {
                    assert(eligible(old_lines, discard_first) =~= el.push(cur));
                    assert(el.push(cur).drop_last() =~= el);
                }
            }
            if !(discard_first && at_first) {
                match first_ns {
                    Some(a) => {
                        proof {
                            let l = cur;
                            assert forall|k: int| 0 <= k < a - start implies is_space(l[k]) by {
                                assert(l[k] == s[start + k]);
                            }
                            assert forall|k: int|
                                last_ns - start < k < l.len() implies is_space(l[k]) by {
                                assert(l[k] == s[start + k]);
                            }
                            lemma_trim_range(l, a - start, last_ns - start);
                            assert(l.subrange(a - start, last_ns - start + 1) =~= s.subrange(
                                a as int,
                                last_ns + 1,
                            ));
                        }
                        best = Some((a, last_ns + 1));
                    },
                    None => {
                        proof {
                            assert forall|k: int| 0 <= k < cur.len() implies is_space(cur[k]) by {
                                assert(cur[k] == s[start + k]);
                            }
                            lemma_trim_blank(cur);
                        }
                    },
                }
            }
            start = i + 1;
            first_ns = None;
            at_first = false;
            proof {
                lemma_split_lines_nonempty(s.take(i + 1));
                assert(s.subrange(start as int, i + 1) =~= Seq::<char>::empty());
            }
        } else {
            proof {
                let new_lines = split_lines(s.take(i + 1));
                assert(new_lines == old_lines.update(
                    old_lines.len() - 1,
                    old_lines.last().push(c),
                ));
                assert(new_lines.drop_last() =~= old_lines.drop_last());
                assert(s.subrange(start as int, i + 1) =~= cur.push(c));
            }
            if !is_space_char(c) {
                if first_ns.is_none() {
                    first_ns = Some(i);
                }
                last_ns = i;
            }
        }
        i = i + 1;
    }
    proof {
        assert(s.take(n as int) =~= s);
    }
    let ghost lines = split_lines(s);
    let ghost cur = s.subrange(start as int, n as int);
    proof {
        assert(lines =~= lines.drop_last().push(cur));
    }
    if !(discard_first && at_first) {
        proof {
            let el = eligible(lines.drop_last(), discard_first);
            assert(eligible(lines, discard_first) =~= el.push(cur));
            assert(el.push(cur).drop_last() =~= el);
        }
        match first_ns {
            Some(a) => {
                proof {
                    let l = cur;
                    assert forall|k: int| 0 <= k < a - start implies is_space(l[k]) by {
                        assert(l[k] == s[start + k]);
                    }
                    assert forall|k: int| last_ns - start < k < l.len() implies is_space(l[k]) by {
                        assert(l[k] == s[start + k]);
                    }
                    lemma_trim_range(l, a - start, last_ns - start);
                    assert(l.subrange(a - start, last_ns - start + 1) =~= s.subrange(
                        a as int,
                        last_ns + 1,
                    ));
                }
                return Some(tail.substring_char(a, last_ns + 1).to_owned());
            },
            None => {
                proof {
                    assert forall|k: int| 0 <= k < cur.len() implies is_space(cur[k]) by {
                        assert(cur[k] == s[start + k]);
                    }
                    lemma_trim_blank(cur);
                }
            },
        }
    } else {
        proof {
            assert(eligible(lines, discard_first) =~= Seq::<Seq<char>>::empty());
            assert(eligible(lines.drop_last(), discard_first) =~= Seq::<Seq<char>>::empty());
        }
    }
    match best {
        Some((a, b)) => Some(tail.substring_char(a, b).to_owned()),
        None => None,
    }
}

} // verus!
