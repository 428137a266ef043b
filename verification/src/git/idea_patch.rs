//! Reading patches that IDEA IDEs export: file diffs separated by a line of `=`, each with four
//! metadata lines before the separator, a three-line header and hunks of diff lines.
use vstd::prelude::*;

use super::{line_type_of_char, opt_text, DiffLine, Diff, Hunk, IdeaPatch, LineType};
use crate::text::{
    chars_of, ends_with, ends_with_exec, first_with_prefix, is_ws, lines, line_ranges, range_texts,
    ranges_within, split_by, split_ranges, starts_with, starts_with_exec, string_of_range, trim,
    trim_range, word_ranges, words,
};

verus! {

/// The line that separates the file diffs of a patch: 67 `=` characters.
pub open spec fn idea_separator() -> Seq<char> {
    Seq::new(67, |i: int| '=')
}

/// The number of metadata lines at the end of each file diff but the last.
pub open spec fn metadata_lines() -> int {
    4
}

/// A diff line as a value: its content and its type.
pub type LineModel = (Seq<char>, LineType);

/// A hunk read from a patch.
pub ghost struct ParsedHunk {
    pub header: Seq<char>,
    pub body: Seq<LineModel>,
    pub old_file: Option<Seq<char>>,
    pub new_file: Option<Seq<char>>,
}

/// The file that a header line of a file diff names: the first word that starts with
/// `prefix`; no file (`Some(None)`) where instead a word starts with `/dev/null`, as for a
/// file that is added or deleted; None where the line names neither.
pub open spec fn patch_file(l: Seq<char>, prefix: Seq<char>) -> Option<Option<Seq<char>>> {
    match first_with_prefix(words(l), prefix) {
        Some(w) => Some(Some(w)),
        None => if first_with_prefix(words(l), "/dev/null"@) is Some { Some(None) } else { None },
    }
}

pub open spec fn is_digit(c: char) -> bool {
    '0' <= c <= '9'
}

pub open spec fn digit_value(c: char) -> nat {
    if c == '1' { 1 } else if c == '2' { 2 } else if c == '3' { 3 } else if c == '4' { 4 }
    else if c == '5' { 5 } else if c == '6' { 6 } else if c == '7' { 7 } else if c == '8' { 8 }
    else if c == '9' { 9 } else { 0 }
}

/// The digits at the start of a text.
pub open spec fn leading_digits(s: Seq<char>) -> Seq<char>
    decreases s.len(),
{
    if s.len() > 0 && is_digit(s[0]) { seq![s[0]] + leading_digits(s.drop_first()) } else { Seq::empty() }
}

/// The number that decimal digits write.
pub open spec fn digits_value(d: Seq<char>) -> nat
    decreases d.len(),
{
    if d.len() == 0 { 0 } else { digits_value(d.drop_last()) * 10 + digit_value(d.last()) }
}

/// A start line of a hunk header `@@ -a,b +c,d @@`: the number at the start of the `k`-th
/// word after its sign (`-` for the old version, `+` for the new one); 0 where the word or the
/// sign is missing, or the number does not fit a `u32`.
pub open spec fn start_line(header: Seq<char>, k: int, sign: char) -> u32 {
    let ws = words(header);
    if ws.len() > k && ws[k].len() > 0 && ws[k][0] == sign {
        let v = digits_value(leading_digits(ws[k].drop_first()));
        if v <= u32::MAX { v as u32 } else { 0 }
    } else {
        0
    }
}

/// The trimmed parts that start with `diff`.
pub open spec fn diff_parts(parts: Seq<Seq<char>>) -> Seq<Seq<char>>
    decreases parts.len(),
{
    if parts.len() == 0 {
        Seq::empty()
    } else {
        let rest = diff_parts(parts.drop_last());
        if starts_with(trim(parts.last()), "diff"@) { rest.push(trim(parts.last())) } else { rest }
    }
}

/// The lines of each file diff; all but the last lose their metadata lines. None where a
/// file diff other than the last has fewer lines than that.
pub open spec fn file_diff_lines(parts: Seq<Seq<char>>) -> Option<Seq<Seq<Seq<char>>>> {
    if forall|i: int| 0 <= i < parts.len() - 1 ==> lines(#[trigger] parts[i]).len() >= metadata_lines() {
        Some(Seq::new(parts.len(), |i: int|
            if i + 1 < parts.len() {
                lines(parts[i]).take(lines(parts[i]).len() - metadata_lines())
            } else {
                lines(parts[i])
            }))
    } else {
        None
    }
}

/// A line that starts a hunk: `@@ ... @@`.
pub open spec fn is_hunk_header(l: Seq<char>) -> bool {
    starts_with(l, "@@ "@) && ends_with(l, " @@"@)
}

/// A body line: its first character gives the type (context where it marks none), the rest
/// is the content.
pub open spec fn parsed_line(l: Seq<char>) -> LineModel {
    (l.drop_first(), match line_type_of_char(l[0]) { Some(t) => t, None => LineType::Context })
}

/// Reading the body lines of a file diff: the hunk headers so far, the bodies completed so far
/// (an empty body is not completed), and the body being read.
pub open spec fn body_scan(ls: Seq<Seq<char>>) -> (Seq<Seq<char>>, Seq<Seq<LineModel>>, Seq<LineModel>)
    decreases ls.len(),
{
    if ls.len() == 0 {
        (Seq::empty(), Seq::empty(), Seq::empty())
    } else {
        let (hs, bs, cur) = body_scan(ls.drop_last());
        let l = ls.last();
        if is_hunk_header(l) {
            (hs.push(l), if cur.len() > 0 { bs.push(cur) } else { bs }, Seq::empty())
        } else {
            (hs, bs, cur.push(parsed_line(l)))
        }
    }
}

/// The hunks of one file diff, given its lines: the old file is named on the second line (a
/// word starting with `a/`, or `/dev/null` for none), the new file on the third (a word
/// starting with `b/`, or `/dev/null`); the i-th hunk header is paired with the i-th body.
/// None where the file diff has fewer than three lines, a file line names no file, or a body
/// line is empty.
pub open spec fn file_diff_hunks(fd: Seq<Seq<char>>) -> Option<Seq<ParsedHunk>> {
    if fd.len() < 3 {
        None
    } else {
        let old = patch_file(fd[1], "a/"@);
        let new = patch_file(fd[2], "b/"@);
        let body = fd.skip(3);
        if old is None || new is None || exists|k: int| 0 <= k < body.len() && !is_hunk_header(body[k]) && (#[trigger] body[k]).len() == 0 {
            None
        } else {
            let (hs, bs0, cur) = body_scan(body);
            let bs = bs0.push(cur);
            let n = if hs.len() < bs.len() { hs.len() } else { bs.len() };
            Some(Seq::new(n, |k: int| ParsedHunk {
                header: hs[k],
                body: bs[k],
                old_file: old->0,
                new_file: new->0,
            }))
        }
    }
}

/// The hunks of all file diffs, one file diff after the other.
pub open spec fn file_diffs_hunks(fds: Seq<Seq<Seq<char>>>) -> Option<Seq<ParsedHunk>>
    decreases fds.len(),
{
    if fds.len() == 0 {
        Some(Seq::empty())
    } else {
        match (file_diffs_hunks(fds.drop_last()), file_diff_hunks(fds.last())) {
            (Some(a), Some(b)) => Some(a + b),
            _ => None,
        }
    }
}

/// The hunks of an IDEA patch: the trimmed text is split at the separator, the trimmed parts
/// that start with `diff` are the file diffs. None where reading the patch fails.
pub open spec fn idea_patch_hunks(text: Seq<char>) -> Option<Seq<ParsedHunk>> {
    match file_diff_lines(diff_parts(split_by(trim(text), idea_separator()))) {
        Some(fds) => file_diffs_hunks(fds),
        None => None,
    }
}

/// A hunk is the parsed one: same header, body and files, and the start lines of its header.
pub open spec fn hunk_matches(h: Hunk, p: ParsedHunk) -> bool {
    &&& h.header@ == p.header
    &&& h.body@.map_values(|l: DiffLine| (l.content@, l.line_type)) == p.body
    &&& opt_text(h.old_file) == p.old_file
    &&& opt_text(h.new_file) == p.new_file
    &&& h.old_start == start_line(p.header, 1, '-')
    &&& h.new_start == start_line(p.header, 2, '+')
}

/// The hunks of a diff are the parsed ones.
pub open spec fn hunks_match(hunks: Seq<Hunk>, parsed: Seq<ParsedHunk>) -> bool {
    &&& hunks.len() == parsed.len()
    &&& forall|k: int| 0 <= k < hunks.len() ==> hunk_matches(#[trigger] hunks[k], parsed[k])
}

fn chars_vec(s: &str) -> (v: Vec<char>)
    ensures
        v@ == s@,
{
    chars_of(s)
}

fn separator_vec() -> (v: Vec<char>)
    ensures
        v@ == idea_separator(),
{
    let mut v: Vec<char> = Vec::new();
    let mut i: usize = 0;
    while i < 67
        invariant
            i <= 67,
            v@ == Seq::new(i as nat, |j: int| '='),
        decreases 67 - i,
    {
        v.push('=');
        i = i + 1;
        assert(v@ =~= Seq::new(i as nat, |j: int| '='));
    }
    v
}


/// The ranges of the file diff parts of a patch's characters.
fn diff_part_ranges(cs: &Vec<char>) -> (parts: Vec<(usize, usize)>)
    ensures
        range_texts(cs@, parts@) == diff_parts(split_by(trim(cs@), idea_separator())),
        ranges_within(parts@, 0, cs.len() as int),
{
    let (a, b) = trim_range(cs, 0, cs.len());
    assert(cs@.subrange(0, cs.len() as int) == cs@);
    let sep = separator_vec();
    let rs = split_ranges(cs, a, b, &sep);
    let ghost pieces = range_texts(cs@, rs@);
    let diff = chars_vec("diff");
    let mut parts: Vec<(usize, usize)> = Vec::new();
    let mut i: usize = 0;
    while i < rs.len()
        invariant
            i <= rs.len(),
            a <= b <= cs.len(),
            ranges_within(rs@, a as int, b as int),
            pieces == range_texts(cs@, rs@),
            diff@ == "diff"@,
            range_texts(cs@, parts@) == diff_parts(pieces.take(i as int)),
            ranges_within(parts@, 0, cs.len() as int),
        decreases rs.len() - i,
    {
        let (x0, y0) = rs[i];
        assert(from_range(rs@[i as int]));
        let (x, y) = trim_range(cs, x0, y0);
        let keep = starts_with_exec(cs, x, y, &diff);
        let ghost before = parts@;
        if keep {
            parts.push((x, y));
            assert(range_texts(cs@, parts@) =~= range_texts(cs@, before).push(cs@.subrange(x as int, y as int)));
        }
        proof {
            assert(pieces.take(i + 1).drop_last() == pieces.take(i as int));
            assert(pieces.take(i + 1).last() == cs@.subrange(x0 as int, y0 as int));
        }
        i = i + 1;
    }
    assert(pieces.take(rs.len() as int) == pieces);
    parts
}

spec fn from_range(r: (usize, usize)) -> bool {
    true
}

/// The line ranges of each file diff, without the metadata lines of all but the last.
fn file_diff_line_ranges(cs: &Vec<char>, parts: &Vec<(usize, usize)>) -> (fds: Option<Vec<Vec<(usize, usize)>>>)
    requires
        ranges_within(parts@, 0, cs.len() as int),
    ensures
        match fds {
            Some(v) => file_diff_lines(range_texts(cs@, parts@)) == Some(
                v@.map_values(|fd: Vec<(usize, usize)>| range_texts(cs@, fd@)),
            ) && forall|k: int| 0 <= k < v.len() ==> ranges_within(#[trigger] v@[k]@, 0, cs.len() as int),
            None => file_diff_lines(range_texts(cs@, parts@)) is None,
        },
{
    let ghost ps = range_texts(cs@, parts@);
    let mut fds: Vec<Vec<(usize, usize)>> = Vec::new();
    let mut i: usize = 0;
    while i < parts.len()
        invariant
            i <= parts.len(),
            ps == range_texts(cs@, parts@),
            ranges_within(parts@, 0, cs.len() as int),
            fds.len() == i,
            forall|k: int| 0 <= k < i ==> lines(#[trigger] ps[k]).len() >= metadata_lines() || k + 1 == parts.len(),
            forall|k: int| 0 <= k < i ==> range_texts(cs@, (#[trigger] fds@[k])@) == (
                if k + 1 < parts.len() { lines(ps[k]).take(lines(ps[k]).len() - metadata_lines()) } else { lines(ps[k]) }),
            forall|k: int| 0 <= k < i ==> ranges_within(#[trigger] fds@[k]@, 0, cs.len() as int),
        decreases parts.len() - i,
    {
        let (x, y) = parts[i];
        assert(from_range(parts@[i as int]));
        let mut ls = line_ranges(cs, x, y);
        assert(ps[i as int] == cs@.subrange(x as int, y as int));
        if i + 1 < parts.len() {
            if ls.len() < 4 {
                proof {
                    assert(lines(ps[i as int]).len() < metadata_lines());
                }
                return None;
            }
            let ghost full = ls@;
            ls.truncate(ls.len() - 4);
            proof {
                assert(ls@ == full.take(full.len() - 4));
                assert(range_texts(cs@, ls@) =~= range_texts(cs@, full).take(full.len() - 4));
            }
        }
        fds.push(ls);
        i = i + 1;
    }
    proof {
        let target = Seq::new(ps.len(), |i: int|
            if i + 1 < ps.len() {
                lines(ps[i]).take(lines(ps[i]).len() - metadata_lines())
            } else {
                lines(ps[i])
            });
        assert(fds@.map_values(|fd: Vec<(usize, usize)>| range_texts(cs@, fd@)) =~= target);
    }
    Some(fds)
}


/// The first of the given word ranges whose text starts with `p`.
fn first_range_with_prefix(cs: &Vec<char>, ws: &Vec<(usize, usize)>, p: &Vec<char>) -> (r: Option<(usize, usize)>)
    requires
        ranges_within(ws@, 0, cs.len() as int),
    ensures
        match r {
            Some(w) => w.0 <= w.1 <= cs.len() && first_with_prefix(range_texts(cs@, ws@), p@)
                == Some(cs@.subrange(w.0 as int, w.1 as int)),
            None => first_with_prefix(range_texts(cs@, ws@), p@) is None,
        },
{
    let ghost texts = range_texts(cs@, ws@);
    let mut i: usize = 0;
    assert(texts.skip(0) == texts);
    while i < ws.len()
        invariant
            i <= ws.len(),
            texts == range_texts(cs@, ws@),
            ranges_within(ws@, 0, cs.len() as int),
            first_with_prefix(texts, p@) == first_with_prefix(texts.skip(i as int), p@),
        decreases ws.len() - i,
    {
        let (x, y) = ws[i];
        assert(from_range(ws@[i as int]));
        assert(texts.skip(i as int)[0] == cs@.subrange(x as int, y as int));
        if starts_with_exec(cs, x, y, p) {
            return Some((x, y));
        }
        assert(texts.skip(i as int).drop_first() == texts.skip(i + 1));
        i = i + 1;
    }
    None
}

/// The value of a digit, or None for another character.
fn digit_exec(c: char) -> (r: Option<u64>)
    ensures
        match r {
            Some(v) => is_digit(c) && v == digit_value(c),
            None => !is_digit(c),
        },
{
    if c == '0' { Some(0) } else if c == '1' { Some(1) } else if c == '2' { Some(2) }
    else if c == '3' { Some(3) } else if c == '4' { Some(4) } else if c == '5' { Some(5) }
    else if c == '6' { Some(6) } else if c == '7' { Some(7) } else if c == '8' { Some(8) }
    else if c == '9' { Some(9) } else { None }
}

proof fn lemma_leading_digits(s: Seq<char>, j: int)
    requires
        0 <= j <= s.len(),
        forall|i: int| 0 <= i < j ==> is_digit(#[trigger] s[i]),
        j == s.len() || !is_digit(s[j]),
    ensures
        leading_digits(s) == s.take(j),
    decreases j,
{
    if j == 0 {
        assert(s.take(0) =~= Seq::<char>::empty());
    } else {
        let t = s.drop_first();
        assert forall|i: int| 0 <= i < j - 1 implies is_digit(#[trigger] t[i]) by {
            assert(t[i] == s[i + 1]);
        }
        if j < s.len() {
            assert(t[j - 1] == s[j]);
        }
        lemma_leading_digits(t, j - 1);
        assert(seq![s[0]] + t.take(j - 1) =~= s.take(j));
    }
}

/// The start line that the `k`-th word of the header `cs[x..y]` gives after `sign`.
fn start_line_exec(cs: &Vec<char>, x: usize, y: usize, k: usize, sign: char) -> (r: u32)
    requires
        x <= y <= cs.len(),
    ensures
        r == start_line(cs@.subrange(x as int, y as int), k as int, sign),
{
    let ghost h = cs@.subrange(x as int, y as int);
    let ws = word_ranges(cs, x, y);
    if ws.len() <= k {
        return 0;
    }
    let (a, b) = ws[k];
    assert(range_texts(cs@, ws@)[k as int] == cs@.subrange(a as int, b as int));
    let ghost w = cs@.subrange(a as int, b as int);
    assert(w == words(h)[k as int]);
    assert(x <= a <= b <= y);
    if a == b || cs[a] != sign {
        return 0;
    }
    assert(w[0] == cs@[a as int]);
    let ghost t = w.drop_first();
    assert(t =~= cs@.subrange(a + 1, b as int));
    let mut i: usize = a + 1;
    let mut acc: u64 = 0;
    let mut big = false;
    while i < b
        invariant_except_break
            a + 1 <= i <= b,
            b <= cs.len(),
            t == cs@.subrange(a + 1, b as int),
            forall|j: int| 0 <= j < i - (a + 1) ==> is_digit(#[trigger] t[j]),
            !big ==> acc == digits_value(t.take(i - (a + 1))) && acc <= u32::MAX,
            big ==> digits_value(t.take(i - (a + 1))) > u32::MAX,
        ensures
            a + 1 <= i <= b,
            forall|j: int| 0 <= j < i - (a + 1) ==> is_digit(#[trigger] t[j]),
            i == b || !is_digit(t[i - (a + 1)]),
            !big ==> acc == digits_value(t.take(i - (a + 1))) && acc <= u32::MAX,
            big ==> digits_value(t.take(i - (a + 1))) > u32::MAX,
        decreases b - i,
    {
        let ghost j = i - (a + 1);
        assert(t[j] == cs@[i as int]);
        let d = match digit_exec(cs[i]) {
            Some(d) => d,
            None => {
                break;
            },
        };
        let ghost v0 = digits_value(t.take(j));
        assert(t.take(j + 1).drop_last() =~= t.take(j));
        assert(digits_value(t.take(j + 1)) == v0 * 10 + d);
        if !big {
            let v = acc * 10 + d;
            if v > 4294967295 {
                big = true;
            } else {
                acc = v;
            }
        }
        i = i + 1;
    }
    proof {
        lemma_leading_digits(t, i - (a + 1));
    }
    if big {
        0
    } else {
        acc as u32
    }
}

/// Where the header line `cs[x..y]` of a file diff names its file: the range of the first word
/// that starts with `prefix`; no range where instead a word starts with `/dev/null`.
fn patch_file_range(cs: &Vec<char>, x: usize, y: usize, prefix: &Vec<char>) -> (r: Option<Option<(usize, usize)>>)
    requires
        x <= y <= cs.len(),
    ensures
        match r {
            Some(Some(w)) => w.0 <= w.1 <= cs.len()
                && patch_file(cs@.subrange(x as int, y as int), prefix@) == Some(Some(cs@.subrange(w.0 as int, w.1 as int))),
            Some(None) => patch_file(cs@.subrange(x as int, y as int), prefix@) == Some(None::<Seq<char>>),
            None => patch_file(cs@.subrange(x as int, y as int), prefix@) is None,
        },
{
    let ws = word_ranges(cs, x, y);
    match first_range_with_prefix(cs, &ws, prefix) {
        Some(w) => Some(Some(w)),
        None => {
            let null = chars_vec("/dev/null");
            match first_range_with_prefix(cs, &ws, &null) {
                Some(_) => Some(None),
                None => None,
            }
        },
    }
}

/// The diff lines of a body, as values.
pub open spec fn line_models(v: Seq<DiffLine>) -> Seq<LineModel> {
    v.map_values(|l: DiffLine| (l.content@, l.line_type))
}

/// The hunks of one file diff, given the ranges of its lines.
fn file_diff_hunks_exec(cs: &Vec<char>, fd: &Vec<(usize, usize)>) -> (r: Option<Vec<Hunk>>)
    requires
        ranges_within(fd@, 0, cs.len() as int),
    ensures
        match r {
            Some(hs) => file_diff_hunks(range_texts(cs@, fd@)) matches Some(ph) && hunks_match(hs@, ph),
            None => file_diff_hunks(range_texts(cs@, fd@)) is None,
        },
{
    let ghost lts = range_texts(cs@, fd@);
    if fd.len() < 3 {
        return None;
    }
    let (x1, y1) = fd[1];
    assert(from_range(fd@[1]));
    let (x2, y2) = fd[2];
    assert(from_range(fd@[2]));
    let a_prefix = chars_vec("a/");
    let b_prefix = chars_vec("b/");
    assert(lts[1] == cs@.subrange(x1 as int, y1 as int));
    assert(lts[2] == cs@.subrange(x2 as int, y2 as int));
    let old = match patch_file_range(cs, x1, y1, &a_prefix) {
        Some(w) => w,
        None => { return None; },
    };
    let new = match patch_file_range(cs, x2, y2, &b_prefix) {
        Some(w) => w,
        None => { return None; },
    };
    let ghost old_text: Option<Seq<char>> = match old { Some(w) => Some(cs@.subrange(w.0 as int, w.1 as int)), None => None };
    let ghost new_text: Option<Seq<char>> = match new { Some(w) => Some(cs@.subrange(w.0 as int, w.1 as int)), None => None };
    assert(patch_file(lts[1], "a/"@) == Some(old_text));
    assert(patch_file(lts[2], "b/"@) == Some(new_text));
    let ghost body = lts.skip(3);
    let open_marker = chars_vec("@@ ");
    let close_marker = chars_vec(" @@");
    let mut headers: Vec<(usize, usize)> = Vec::new();
    let mut bodies: Vec<Vec<DiffLine>> = Vec::new();
    let mut cur: Vec<DiffLine> = Vec::new();
    let mut k: usize = 3;
    while k < fd.len()
        invariant
            3 <= k <= fd.len(),
            lts == range_texts(cs@, fd@),
            body == lts.skip(3),
            ranges_within(fd@, 0, cs.len() as int),
            ranges_within(headers@, 0, cs.len() as int),
            open_marker@ == "@@ "@,
            close_marker@ == " @@"@,
            (range_texts(cs@, headers@), bodies@.map_values(|b: Vec<DiffLine>| line_models(b@)), line_models(cur@))
                == body_scan(body.take(k - 3)),
            forall|j: int| 0 <= j < k - 3 ==> is_hunk_header(body[j]) || (#[trigger] body[j]).len() > 0,
        decreases fd.len() - k,
    {
        let (x, y) = fd[k];
        assert(from_range(fd@[k as int]));
        let ghost l = cs@.subrange(x as int, y as int);
        assert(body[k - 3] == l);
        assert(body.take(k - 2).drop_last() == body.take(k - 3));
        assert(body.take(k - 2).last() == l);
        let is_header = starts_with_exec(cs, x, y, &open_marker) && ends_with_exec(cs, x, y, &close_marker);
        if is_header {
            let ghost hs0 = headers@;
            let ghost bs0 = bodies@;
            headers.push((x, y));
            assert(range_texts(cs@, headers@) =~= range_texts(cs@, hs0).push(l));
            if cur.len() > 0 {
                bodies.push(cur);
                assert(bodies@.map_values(|b: Vec<DiffLine>| line_models(b@))
                    =~= bs0.map_values(|b: Vec<DiffLine>| line_models(b@)).push(line_models(cur@)));
            }
            cur = Vec::new();
            assert(line_models(cur@) =~= Seq::<LineModel>::empty());
        } else {
            if x == y {
                proof {
                    assert(l.len() == 0);
                    assert(!is_hunk_header(body[k - 3]) && body[k - 3].len() == 0);
                }
                return None;
            }
            let first = cs[x];
            let line_type = match LineType::try_from(first) {
                Ok(t) => t,
                Err(_) => LineType::Context,
            };
            let content = string_of_range(cs, x + 1, y);
            let ghost c0 = cur@;
            cur.push(DiffLine::new(content, line_type));
            proof {
                assert(l[0] == first);
                assert(l.drop_first() =~= cs@.subrange(x + 1, y as int));
                assert(line_models(cur@) =~= line_models(c0).push(parsed_line(l)));
            }
        }
        k = k + 1;
    }
    assert(body.take(fd.len() - 3) == body);
    let ghost bs0 = bodies@;
    let ghost cur0 = cur@;
    bodies.push(cur);
    let ghost bmodels = bodies@.map_values(|b: Vec<DiffLine>| line_models(b@));
    assert(bmodels =~= bs0.map_values(|b: Vec<DiffLine>| line_models(b@)).push(line_models(cur0)));
    let n = if headers.len() < bodies.len() { headers.len() } else { bodies.len() };
    proof {
        assert(!exists|k: int| 0 <= k < body.len() && !is_hunk_header(body[k]) && (#[trigger] body[k]).len() == 0);
        assert(body_scan(body) == (range_texts(cs@, headers@), bs0.map_values(|b: Vec<DiffLine>| line_models(b@)), line_models(cur0)));
    }
    let ghost parsed = file_diff_hunks(lts)->0;
    proof {
        assert(parsed == Seq::new(n as nat, |k: int| ParsedHunk {
            header: range_texts(cs@, headers@)[k],
            body: bmodels[k],
            old_file: old_text,
            new_file: new_text,
        }));
        assert forall|j: int| 0 <= j < bodies.len() implies line_models((#[trigger] bodies@[j])@) == bmodels[j + 0] by {}
    }
    let mut hunks: Vec<Hunk> = Vec::new();
    let mut i: usize = 0;
    while i < n
        invariant
            i <= n,
            n <= headers.len(),
            n <= bs0.len() + 1,
            bodies.len() == bs0.len() + 1 - i,
            parsed.len() == n,
            old matches Some(w) ==> w.0 <= w.1 <= cs.len(),
            new matches Some(w) ==> w.0 <= w.1 <= cs.len(),
            old_text == (match old { Some(w) => Some(cs@.subrange(w.0 as int, w.1 as int)), None => None::<Seq<char>> }),
            new_text == (match new { Some(w) => Some(cs@.subrange(w.0 as int, w.1 as int)), None => None::<Seq<char>> }),
            ranges_within(headers@, 0, cs.len() as int),
            forall|j: int| 0 <= j < bodies.len() ==> line_models((#[trigger] bodies@[j])@) == bmodels[j + i],
            forall|j: int| 0 <= j < n ==> (#[trigger] parsed[j]).header == range_texts(cs@, headers@)[j]
                && parsed[j].body == bmodels[j]
                && parsed[j].old_file == old_text
                && parsed[j].new_file == new_text,
            hunks_match(hunks@, parsed.take(i as int)),
        decreases n - i,
    {
        let b = bodies.remove(0);
        let (hx, hy) = headers[i];
        assert(from_range(headers@[i as int]));
        let old_file = match old {
            Some(w) => Some(string_of_range(cs, w.0, w.1)),
            None => None,
        };
        let new_file = match new {
            Some(w) => Some(string_of_range(cs, w.0, w.1)),
            None => None,
        };
        let h = Hunk {
            body: b,
            header: string_of_range(cs, hx, hy),
            old_file,
            new_file,
            old_start: start_line_exec(cs, hx, hy, 1, '-'),
            new_start: start_line_exec(cs, hx, hy, 2, '+'),
        };
        let ghost hs0 = hunks@;
        hunks.push(h);
        proof {
            assert(parsed.take(i + 1).drop_last() == parsed.take(i as int));
            assert(hunk_matches(h, parsed[i as int]));
            assert forall|j: int| 0 <= j < hunks@.len() implies hunk_matches(#[trigger] hunks@[j], parsed.take(i + 1)[j]) by {
                if j < i {
                    assert(hunks@[j] == hs0[j]);
                }
            }
        }
        i = i + 1;
    }
    assert(parsed.take(n as int) == parsed);
    Some(hunks)
}


impl Diff {
    /// Reads a patch exported by an IDEA IDE. Returns None exactly where reading the patch
    /// fails: a file diff other than the last has fewer than four lines, a file diff has fewer
    /// than three lines, the second line of a file diff has no word starting with `a/` or
    /// `/dev/null`, the third none starting with `b/` or `/dev/null`, or a body line that is no
    /// hunk header is empty. A hunk's start lines are read from its header.
    pub fn try_from_idea_patch(patch: &IdeaPatch) -> (r: Option<Diff>)
        ensures
            match r {
                Some(d) => idea_patch_hunks(patch.0@) matches Some(ph) && hunks_match(d.hunks@, ph) && d.wf(),
                None => idea_patch_hunks(patch.0@) is None,
            },
    {
        let cs = chars_of(patch.0.as_str());
        let parts = diff_part_ranges(&cs);
        let fds = match file_diff_line_ranges(&cs, &parts) {
            Some(v) => v,
            None => { return None; },
        };
        let ghost fd_texts = fds@.map_values(|fd: Vec<(usize, usize)>| range_texts(cs@, fd@));
        assert(idea_patch_hunks(patch.0@) == file_diffs_hunks(fd_texts));
        let mut hunks: Vec<Hunk> = Vec::new();
        let mut i: usize = 0;
        while i < fds.len()
            invariant
                i <= fds.len(),
                fd_texts == fds@.map_values(|fd: Vec<(usize, usize)>| range_texts(cs@, fd@)),
                idea_patch_hunks(patch.0@) == file_diffs_hunks(fd_texts),
                forall|k: int| 0 <= k < fds.len() ==> ranges_within(#[trigger] fds@[k]@, 0, cs.len() as int),
                file_diffs_hunks(fd_texts.take(i as int)) matches Some(ph) && hunks_match(hunks@, ph),
            decreases fds.len() - i,
        {
            let ghost before = hunks@;
            let ghost ph0 = file_diffs_hunks(fd_texts.take(i as int))->0;
            proof {
                assert(fd_texts.take(i + 1).drop_last() == fd_texts.take(i as int));
                assert(fd_texts.take(i + 1).last() == range_texts(cs@, fds@[i as int]@));
            }
            match file_diff_hunks_exec(&cs, &fds[i]) {
                None => {
                    proof {
                        assert(file_diffs_hunks(fd_texts.take(i + 1)) is None);
                        lemma_file_diffs_hunks_none(fd_texts, i as int + 1);
                        assert(fd_texts.take(fds.len() as int) == fd_texts);
                    }
                    return None;
                },
                Some(mut hs) => {
                    let ghost ph1 = file_diff_hunks(range_texts(cs@, fds@[i as int]@))->0;
                    let ghost hs_v = hs@;
                    hunks.append(&mut hs);
                    proof {
                        assert(hunks@ == before + hs_v);
                        assert(file_diffs_hunks(fd_texts.take(i + 1)) == Some(ph0 + ph1));
                        assert forall|k: int| 0 <= k < hunks@.len() implies hunk_matches(#[trigger] hunks@[k], (ph0 + ph1)[k]) by {
                            if k < before.len() {
                                assert(hunks@[k] == before[k]);
                            } else {
                                assert(hunks@[k] == hs_v[k - before.len()]);
                            }
                        }
                    }
                },
            }
            i = i + 1;
        }
        assert(fd_texts.take(fds.len() as int) == fd_texts);
        Some(Diff::from_hunks(hunks))
    }

    /// Reads a patch exported by an IDEA IDE (see `try_from_idea_patch` for when that fails).
    pub fn from_idea_patch(patch: IdeaPatch) -> (d: Diff)
        requires
            idea_patch_hunks(patch.0@) is Some,
        ensures
            hunks_match(d.hunks@, idea_patch_hunks(patch.0@)->0),
            d.wf(),
    {
        match Self::try_from_idea_patch(&patch) {
            Some(d) => d,
            None => { proof { assert(false); } Diff::empty() },
        }
    }
}

proof fn lemma_file_diffs_hunks_none(fds: Seq<Seq<Seq<char>>>, i: int)
    requires
        0 <= i <= fds.len(),
        file_diffs_hunks(fds.take(i)) is None,
    ensures
        file_diffs_hunks(fds) is None,
    decreases fds.len() - i,
{
    if i < fds.len() {
        assert(fds.take(i + 1).drop_last() == fds.take(i));
        lemma_file_diffs_hunks_none(fds, i + 1);
    } else {
        assert(fds.take(i) == fds);
    }
}

} // verus!
