//! Text as sequences of characters: the parts of `str` processing that the library relies on,
//! each stated as a function on character sequences.
use vstd::prelude::*;

verus! {

/// Appends one character to a string (`String::push`).
#[verifier::external_body]
pub(crate) fn push_char(s: &mut String, c: char)
    ensures
        final(s)@ == old(s)@.push(c),
{
    s.push(c);
}

/// The characters of a string, in order.
pub fn chars_of(s: &str) -> (v: Vec<char>)
    ensures
        v@ == s@,
{
    let mut v: Vec<char> = Vec::new();
    for c in it: s.chars()
        invariant
            it.seq() == s@,
            v@ == it.seq().take(it.index() as int),
    {
        v.push(c);
    }
    v
}

/// The string made of the given characters.
pub fn string_of(cs: &[char]) -> (s: String)
    ensures
        s@ == cs@,
{
    let mut s = String::new();
    let mut i: usize = 0;
    while i < cs.len()
        invariant
            i <= cs.len(),
            s@ == cs@.take(i as int),
        decreases cs.len() - i,
    {
        push_char(&mut s, cs[i]);
        i = i + 1;
        assert(s@ == cs@.take(i as int));
    }
    assert(cs@.take(cs.len() as int) == cs@);
    s
}

/// The string made of the characters `cs[from..to]`.
pub fn string_of_range(cs: &Vec<char>, from: usize, to: usize) -> (s: String)
    requires
        from <= to <= cs.len(),
    ensures
        s@ == cs@.subrange(from as int, to as int),
{
    let mut s = String::new();
    let mut i: usize = from;
    while i < to
        invariant
            from <= i <= to,
            to <= cs.len(),
            s@ == cs@.subrange(from as int, i as int),
        decreases to - i,
    {
        push_char(&mut s, cs[i]);
        i = i + 1;
        assert(s@ == cs@.subrange(from as int, i as int));
    }
    s
}

/// Appends a string slice to a string.
pub fn append_str(s: &mut String, t: &str)
    ensures
        final(s)@ == old(s)@ + t@,
{
    let cs = chars_of(t);
    let mut i: usize = 0;
    while i < cs.len()
        invariant
            i <= cs.len(),
            cs@ == t@,
            s@ == old(s)@ + cs@.take(i as int),
        decreases cs.len() - i,
    {
        push_char(s, cs[i]);
        i = i + 1;
        assert(s@ == old(s)@ + cs@.take(i as int));
    }
    assert(cs@.take(cs.len() as int) == cs@);
}

/// The lines joined with a newline between each two of them.
pub open spec fn join_lines(lines: Seq<Seq<char>>) -> Seq<char>
    decreases lines.len(),
{
    if lines.len() == 0 {
        Seq::empty()
    } else if lines.len() == 1 {
        lines[0]
    } else {
        join_lines(lines.drop_last()) + seq!['\n'] + lines.last()
    }
}

/// Unicode white space, as `char::is_whitespace` defines it (the `White_Space` property).
pub open spec fn is_ws(c: char) -> bool {
    ||| ('\u{9}' <= c <= '\u{d}')
    ||| c == ' '
    ||| c == '\u{85}'
    ||| c == '\u{a0}'
    ||| c == '\u{1680}'
    ||| ('\u{2000}' <= c <= '\u{200a}')
    ||| c == '\u{2028}'
    ||| c == '\u{2029}'
    ||| c == '\u{202f}'
    ||| c == '\u{205f}'
    ||| c == '\u{3000}'
}

pub fn is_ws_exec(c: char) -> (r: bool)
    ensures
        r == is_ws(c),
{
    ('\u{9}' <= c && c <= '\u{d}') || c == ' ' || c == '\u{85}' || c == '\u{a0}' || c == '\u{1680}'
        || ('\u{2000}' <= c && c <= '\u{200a}') || c == '\u{2028}' || c == '\u{2029}'
        || c == '\u{202f}' || c == '\u{205f}' || c == '\u{3000}'
}

/// The text without its leading white space.
pub open spec fn trim_start(s: Seq<char>) -> Seq<char>
    decreases s.len(),
{
    if s.len() > 0 && is_ws(s[0]) { trim_start(s.drop_first()) } else { s }
}

/// The text without its trailing white space.
pub open spec fn trim_end(s: Seq<char>) -> Seq<char>
    decreases s.len(),
{
    if s.len() > 0 && is_ws(s.last()) { trim_end(s.drop_last()) } else { s }
}

/// The text without leading and trailing white space (`str::trim`).
pub open spec fn trim(s: Seq<char>) -> Seq<char> {
    trim_end(trim_start(s))
}

pub open spec fn starts_with(s: Seq<char>, p: Seq<char>) -> bool {
    p.len() <= s.len() && s.take(p.len() as int) == p
}

pub open spec fn ends_with(s: Seq<char>, p: Seq<char>) -> bool {
    p.len() <= s.len() && s.skip(s.len() - p.len()) == p
}

/// The first index at which `p` occurs in `s`, or -1.
pub open spec fn find(s: Seq<char>, p: Seq<char>) -> int
    decreases s.len(),
{
    if s.len() < p.len() {
        -1
    } else if starts_with(s, p) {
        0
    } else if s.len() == 0 {
        -1
    } else {
        let r = find(s.drop_first(), p);
        if r < 0 { -1 } else { r + 1 }
    }
}

/// `p` occurs in `s` at index `j`.
pub open spec fn matches_at(s: Seq<char>, p: Seq<char>, j: int) -> bool {
    0 <= j && j + p.len() <= s.len() && s.subrange(j, j + p.len()) == p
}

pub proof fn lemma_find(s: Seq<char>, p: Seq<char>)
    ensures
        -1 <= find(s, p),
        find(s, p) >= 0 ==> find(s, p) <= s.len() - p.len(),
        find(s, p) >= 0 ==> matches_at(s, p, find(s, p)),
        forall|j: int| 0 <= j && (find(s, p) < 0 || j < find(s, p)) ==> !#[trigger] matches_at(s, p, j),
    decreases s.len(),
{
    if s.len() < p.len() {
    } else if starts_with(s, p) {
        assert(s.subrange(0, p.len() as int) == s.take(p.len() as int));
    } else if s.len() == 0 {
        assert(p.len() == 0);
        assert(s.take(0) =~= p);
    } else {
        lemma_find(s.drop_first(), p);
        let r = find(s.drop_first(), p);
        assert(s.subrange(0, p.len() as int) == s.take(p.len() as int));
        assert forall|j: int| 1 <= j implies #[trigger] matches_at(s, p, j) == matches_at(s.drop_first(), p, j - 1) by {
            if j + p.len() <= s.len() {
                assert(s.subrange(j, j + p.len()) =~= s.drop_first().subrange(j - 1, j - 1 + p.len()));
            }
        }
        if r >= 0 {
            assert(matches_at(s, p, r + 1));
        }
        assert forall|j: int| 0 <= j && (find(s, p) < 0 || j < find(s, p)) implies !#[trigger] matches_at(s, p, j) by {
            if j > 0 {
                assert(matches_at(s, p, j) == matches_at(s.drop_first(), p, j - 1));
            }
        }
    }
}

/// The parts of `s` between the occurrences of `sep`, found from the left without overlap
/// (`str::split` with a non-empty string pattern).
pub open spec fn split_by(s: Seq<char>, sep: Seq<char>) -> Seq<Seq<char>>
    decreases s.len(),
{
    if sep.len() == 0 {
        seq![s]
    } else {
        let i = find(s, sep);
        if i < 0 {
            seq![s]
        } else {
            proof {
                lemma_find(s, sep);
            }
            seq![s.take(i)] + split_by(s.skip(i + sep.len()), sep)
        }
    }
}

/// Reading `s` from the left, split at every character that `is_sep` holds of: the parts
/// completed so far and the one being read.
pub open spec fn part_scan(s: Seq<char>, is_sep: spec_fn(char) -> bool) -> (Seq<Seq<char>>, Seq<char>)
    decreases s.len(),
{
    if s.len() == 0 {
        (Seq::empty(), Seq::empty())
    } else {
        let (done, cur) = part_scan(s.drop_last(), is_sep);
        if is_sep(s.last()) {
            if cur.len() > 0 { (done.push(cur), Seq::empty()) } else { (done, Seq::empty()) }
        } else {
            (done, cur.push(s.last()))
        }
    }
}

/// The non-empty parts of `s` between characters that `is_sep` holds of.
pub open spec fn nonempty_parts(s: Seq<char>, is_sep: spec_fn(char) -> bool) -> Seq<Seq<char>> {
    let (done, cur) = part_scan(s, is_sep);
    if cur.len() > 0 { done.push(cur) } else { done }
}

/// The words of `s`: its non-empty parts between white space (`str::split_whitespace`).
pub open spec fn words(s: Seq<char>) -> Seq<Seq<char>> {
    nonempty_parts(s, |c: char| is_ws(c))
}

/// A line without its final carriage return, if it has one.
pub open spec fn strip_cr(l: Seq<char>) -> Seq<char> {
    if l.len() > 0 && l.last() == '\r' { l.drop_last() } else { l }
}

/// Reading `s` from the left: the lines completed by a newline so far (each without a
/// final carriage return) and the line being read.
pub open spec fn line_scan(s: Seq<char>) -> (Seq<Seq<char>>, Seq<char>)
    decreases s.len(),
{
    if s.len() == 0 {
        (Seq::empty(), Seq::empty())
    } else {
        let (done, cur) = line_scan(s.drop_last());
        if s.last() == '\n' { (done.push(strip_cr(cur)), Seq::empty()) } else { (done, cur.push(s.last())) }
    }
}

/// The lines of `s` (`str::lines`): split at newlines, a carriage return before a newline
/// removed, and no empty line after a final newline.
pub open spec fn lines(s: Seq<char>) -> Seq<Seq<char>> {
    let (done, cur) = line_scan(s);
    if cur.len() > 0 { done.push(cur) } else { done }
}

/// The first of the sequences that starts with `p`, if any.
pub open spec fn first_with_prefix(ws: Seq<Seq<char>>, p: Seq<char>) -> Option<Seq<char>>
    decreases ws.len(),
{
    if ws.len() == 0 {
        None
    } else if starts_with(ws[0], p) {
        Some(ws[0])
    } else {
        first_with_prefix(ws.drop_first(), p)
    }
}

pub fn starts_with_exec(s: &Vec<char>, from: usize, to: usize, p: &Vec<char>) -> (r: bool)
    requires
        from <= to <= s.len(),
    ensures
        r == starts_with(s@.subrange(from as int, to as int), p@),
{
    if p.len() > to - from {
        return false;
    }
    let mut i: usize = 0;
    while i < p.len()
        invariant
            i <= p.len(),
            p.len() <= to - from,
            from <= to <= s.len(),
            forall|j: int| 0 <= j < i ==> s@[from + j] == p@[j],
        decreases p.len() - i,
    {
        if s[from + i] != p[i] {
            assert(s@.subrange(from as int, to as int).take(p.len() as int)[i as int] != p@[i as int]);
            return false;
        }
        i = i + 1;
    }
    assert(s@.subrange(from as int, to as int).take(p.len() as int) =~= p@);
    true
}

pub fn ends_with_exec(s: &Vec<char>, from: usize, to: usize, p: &Vec<char>) -> (r: bool)
    requires
        from <= to <= s.len(),
    ensures
        r == ends_with(s@.subrange(from as int, to as int), p@),
{
    if p.len() > to - from {
        return false;
    }
    let start = to - p.len();
    let mut i: usize = 0;
    while i < p.len()
        invariant
            i <= p.len(),
            p.len() <= to - from,
            start == to - p.len(),
            from <= to <= s.len(),
            forall|j: int| 0 <= j < i ==> s@[start + j] == p@[j],
        decreases p.len() - i,
    {
        if s[start + i] != p[i] {
            let ghost t = s@.subrange(from as int, to as int);
            assert(t.skip(t.len() - p.len())[i as int] != p@[i as int]);
            return false;
        }
        i = i + 1;
    }
    let ghost t = s@.subrange(from as int, to as int);
    assert(t.skip(t.len() - p.len()) =~= p@);
    true
}

/// The range of `s[from..to]` without leading and trailing white space.
pub fn trim_range(s: &Vec<char>, from: usize, to: usize) -> (r: (usize, usize))
    requires
        from <= to <= s.len(),
    ensures
        from <= r.0 <= r.1 <= to,
        s@.subrange(r.0 as int, r.1 as int) == trim(s@.subrange(from as int, to as int)),
{
    let mut i = from;
    while i < to && is_ws_exec(s[i])
        invariant
            from <= i <= to <= s.len(),
            trim_start(s@.subrange(from as int, to as int)) == trim_start(s@.subrange(i as int, to as int)),
        decreases to - i,
    {
        assert(s@.subrange(i as int, to as int).drop_first() == s@.subrange(i + 1, to as int));
        i = i + 1;
    }
    let mut j = to;
    while j > i && is_ws_exec(s[j - 1])
        invariant
            from <= i <= j <= to <= s.len(),
            trim_end(s@.subrange(i as int, to as int)) == trim_end(s@.subrange(i as int, j as int)),
        decreases j,
    {
        assert(s@.subrange(i as int, j as int).drop_last() == s@.subrange(i as int, j - 1));
        j = j - 1;
    }
    (i, j)
}


/// The texts of the given ranges of `s`.
pub open spec fn range_texts(s: Seq<char>, rs: Seq<(usize, usize)>) -> Seq<Seq<char>> {
    rs.map_values(|r: (usize, usize)| s.subrange(r.0 as int, r.1 as int))
}

/// All ranges lie within `s[from..to]`.
pub open spec fn ranges_within(rs: Seq<(usize, usize)>, from: int, to: int) -> bool {
    forall|k: int| 0 <= k < rs.len() ==> from <= (#[trigger] rs[k]).0 <= rs[k].1 <= to
}

/// The first index in `s[from..to]` at which `p` occurs, counted from `from`.
pub fn find_exec(s: &Vec<char>, from: usize, to: usize, p: &Vec<char>) -> (r: Option<usize>)
    requires
        from <= to <= s.len(),
    ensures
        match r {
            Some(i) => i == find(s@.subrange(from as int, to as int), p@),
            None => find(s@.subrange(from as int, to as int), p@) < 0,
        },
{
    let ghost t = s@.subrange(from as int, to as int);
    proof {
        lemma_find(t, p@);
    }
    if p.len() > to - from {
        return None;
    }
    let last = (to - from) - p.len();
    let mut i: usize = 0;
    loop
        invariant
            p.len() <= to - from,
            last == (to - from) - p.len(),
            from <= to <= s.len(),
            i <= last,
            t == s@.subrange(from as int, to as int),
            forall|j: int| 0 <= j < i ==> !#[trigger] matches_at(t, p@, j),
        decreases last - i,
    {
        proof {
            lemma_find(t, p@);
        }
        let m = starts_with_exec(s, from + i, to, p);
        proof {
            let u = s@.subrange(from + i, to as int);
            if p.len() <= u.len() {
                assert(u.take(p.len() as int) =~= t.subrange(i as int, i + p.len()));
            }
            assert(m == matches_at(t, p@, i as int));
        }
        if m {
            let ghost f = find(t, p@);
            proof {
                if f < 0 || f > i {
                    assert(!matches_at(t, p@, i as int));
                }
                if 0 <= f < i {
                    assert(!matches_at(t, p@, f));
                }
            }
            return Some(i);
        }
        if i == last {
            proof {
                let f = find(t, p@);
                if f >= 0 {
                    assert(!matches_at(t, p@, f));
                }
            }
            return None;
        }
        i = i + 1;
    }
}

/// The ranges of the parts of `s[from..to]` between occurrences of `sep` (`str::split`).
pub fn split_ranges(s: &Vec<char>, from: usize, to: usize, sep: &Vec<char>) -> (rs: Vec<(usize, usize)>)
    requires
        from <= to <= s.len(),
        sep.len() > 0,
    ensures
        range_texts(s@, rs@) == split_by(s@.subrange(from as int, to as int), sep@),
        ranges_within(rs@, from as int, to as int),
{
    let mut rs: Vec<(usize, usize)> = Vec::new();
    let mut pos = from;
    loop
        invariant
            from <= pos <= to <= s.len(),
            sep.len() > 0,
            range_texts(s@, rs@) + split_by(s@.subrange(pos as int, to as int), sep@)
                == split_by(s@.subrange(from as int, to as int), sep@),
            ranges_within(rs@, from as int, to as int),
        decreases to - pos,
    {
        let ghost t = s@.subrange(pos as int, to as int);
        let ghost before = rs@;
        match find_exec(s, pos, to, sep) {
            None => {
                rs.push((pos, to));
                proof {
                    assert(split_by(t, sep@) == seq![t]);
                    assert(range_texts(s@, rs@) =~= range_texts(s@, before).push(t));
                    assert(range_texts(s@, rs@) =~= range_texts(s@, before) + split_by(t, sep@));
                }
                return rs;
            },
            Some(i) => {
                proof {
                    lemma_find(t, sep@);
                }
                rs.push((pos, pos + i));
                proof {
                    assert(t.take(i as int) =~= s@.subrange(pos as int, pos + i));
                    assert(t.skip(i + sep.len()) =~= s@.subrange(pos + i + sep.len(), to as int));
                    assert(split_by(t, sep@) == seq![t.take(i as int)] + split_by(t.skip(i + sep.len()), sep@));
                    assert(range_texts(s@, rs@) =~= range_texts(s@, before).push(t.take(i as int)));
                    assert(range_texts(s@, rs@) + split_by(t.skip(i + sep.len()), sep@)
                        =~= range_texts(s@, before) + split_by(t, sep@));
                }
                pos = pos + i + sep.len();
            },
        }
    }
}

/// The ranges of the lines of `s[from..to]` (`str::lines`).
pub fn line_ranges(s: &Vec<char>, from: usize, to: usize) -> (rs: Vec<(usize, usize)>)
    requires
        from <= to <= s.len(),
    ensures
        range_texts(s@, rs@) == lines(s@.subrange(from as int, to as int)),
        ranges_within(rs@, from as int, to as int),
{
    let mut rs: Vec<(usize, usize)> = Vec::new();
    let mut cur = from;
    let mut k = from;
    while k < to
        invariant
            from <= cur <= k <= to <= s.len(),
            (range_texts(s@, rs@), s@.subrange(cur as int, k as int)) == line_scan(s@.subrange(from as int, k as int)),
            ranges_within(rs@, from as int, to as int),
        decreases to - k,
    {
        let ghost before = rs@;
        proof {
            assert(s@.subrange(from as int, k + 1).drop_last() == s@.subrange(from as int, k as int));
            assert(s@.subrange(from as int, k + 1).last() == s@[k as int]);
        }
        if s[k] == '\n' {
            let end = if k > cur && s[k - 1] == '\r' { k - 1 } else { k };
            rs.push((cur, end));
            proof {
                let c = s@.subrange(cur as int, k as int);
                if k > cur && s@[k - 1] == '\r' {
                    assert(c.drop_last() =~= s@.subrange(cur as int, k - 1));
                }
                assert(strip_cr(c) == s@.subrange(cur as int, end as int));
                assert(range_texts(s@, rs@) =~= range_texts(s@, before).push(strip_cr(c)));
                assert(s@.subrange(k + 1, k + 1) =~= Seq::<char>::empty());
            }
            cur = k + 1;
        } else {
            proof {
                assert(s@.subrange(cur as int, k + 1) =~= s@.subrange(cur as int, k as int).push(s@[k as int]));
            }
        }
        k = k + 1;
    }
    if cur < to {
        let ghost before = rs@;
        rs.push((cur, to));
        assert(range_texts(s@, rs@) =~= range_texts(s@, before).push(s@.subrange(cur as int, to as int)));
    }
    rs
}

/// The ranges of the words of `s[from..to]` (`str::split_whitespace`).
pub fn word_ranges(s: &Vec<char>, from: usize, to: usize) -> (rs: Vec<(usize, usize)>)
    requires
        from <= to <= s.len(),
    ensures
        range_texts(s@, rs@) == words(s@.subrange(from as int, to as int)),
        ranges_within(rs@, from as int, to as int),
{
    let mut rs: Vec<(usize, usize)> = Vec::new();
    let mut cur = from;
    let mut k = from;
    while k < to
        invariant
            from <= cur <= k <= to <= s.len(),
            (range_texts(s@, rs@), s@.subrange(cur as int, k as int))
                == part_scan(s@.subrange(from as int, k as int), |c: char| is_ws(c)),
            ranges_within(rs@, from as int, to as int),
        decreases to - k,
    {
        let ghost before = rs@;
        proof {
            assert(s@.subrange(from as int, k + 1).drop_last() == s@.subrange(from as int, k as int));
            assert(s@.subrange(from as int, k + 1).last() == s@[k as int]);
        }
        if is_ws_exec(s[k]) {
            if k > cur {
                rs.push((cur, k));
                assert(range_texts(s@, rs@) =~= range_texts(s@, before).push(s@.subrange(cur as int, k as int)));
            }
            assert(s@.subrange(k + 1, k + 1) =~= Seq::<char>::empty());
            cur = k + 1;
        } else {
            assert(s@.subrange(cur as int, k + 1) =~= s@.subrange(cur as int, k as int).push(s@[k as int]));
        }
        k = k + 1;
    }
    if cur < to {
        let ghost before = rs@;
        rs.push((cur, to));
        assert(range_texts(s@, rs@) =~= range_texts(s@, before).push(s@.subrange(cur as int, to as int)));
    }
    rs
}


/// Whether two string slices hold the same characters.
pub fn same_str(a: &str, b: &str) -> (r: bool)
    ensures
        r == (a@ == b@),
{
    let x = chars_of(a);
    let y = chars_of(b);
    if x.len() != y.len() {
        return false;
    }
    let mut i: usize = 0;
    while i < x.len()
        invariant
            i <= x.len(),
            x.len() == y.len(),
            x@ == a@,
            y@ == b@,
            forall|j: int| 0 <= j < i ==> x@[j] == y@[j],
        decreases x.len() - i,
    {
        if x[i] != y[i] {
            assert(x@[i as int] != y@[i as int]);
            return false;
        }
        i = i + 1;
    }
    assert(x@ =~= y@);
    true
}

} // verus!
