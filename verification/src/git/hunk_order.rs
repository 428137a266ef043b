//! The order of hunks in a diff: by old file, then new file, then start lines. Files are
//! compared as paths, component by component: a root first, then a leading `.`, then `..`,
//! then names by their characters; repeated separators and inner `.` parts count for nothing.
use vstd::prelude::*;

use super::Hunk;

verus! {

/// Three-way comparison of two character sequences by code point: -1, 0 or 1.
pub open spec fn compare_chars(a: Seq<char>, b: Seq<char>) -> int
    decreases a.len(),
{
    if a.len() == 0 {
        if b.len() == 0 { 0 } else { -1 }
    } else if b.len() == 0 {
        1
    } else if a[0] < b[0] {
        -1
    } else if a[0] > b[0] {
        1
    } else {
        compare_chars(a.drop_first(), b.drop_first())
    }
}

/// Rank of a root component (`/` at the start of a path).
pub const ROOT_DIR: u8 = 1;

/// Rank of a leading `.` component.
pub const CUR_DIR: u8 = 2;

/// Rank of a `..` component.
pub const PARENT_DIR: u8 = 3;

/// Rank of a named component.
pub const NORMAL: u8 = 4;

/// A path component as its rank and, for a named component, its text. Components compare
/// by rank first, so a root sorts before `.`, `.` before `..` and `..` before any name.
pub open spec fn compare_component(a: (u8, Seq<char>), b: (u8, Seq<char>)) -> int {
    if a.0 < b.0 {
        -1
    } else if a.0 > b.0 {
        1
    } else {
        compare_chars(a.1, b.1)
    }
}

/// Three-way comparison of two sequences of components, one component at a time.
pub open spec fn compare_components(a: Seq<(u8, Seq<char>)>, b: Seq<(u8, Seq<char>)>) -> int
    decreases a.len(),
{
    if a.len() == 0 {
        if b.len() == 0 { 0 } else { -1 }
    } else if b.len() == 0 {
        1
    } else if compare_component(a[0], b[0]) != 0 {
        compare_component(a[0], b[0])
    } else {
        compare_components(a.drop_first(), b.drop_first())
    }
}

/// The component that a part between separators gives: none for an empty part or `.`,
/// a parent for `..`, a name otherwise.
pub open spec fn part_component(s: Seq<char>) -> Seq<(u8, Seq<char>)> {
    if s.len() == 0 || s == seq!['.'] {
        Seq::empty()
    } else if s == seq!['.', '.'] {
        seq![(PARENT_DIR, Seq::<char>::empty())]
    } else {
        seq![(NORMAL, s)]
    }
}

/// Reading a path from the left: the components of the parts completed so far and the
/// part being read.
pub open spec fn component_scan(p: Seq<char>) -> (Seq<(u8, Seq<char>)>, Seq<char>)
    decreases p.len(),
{
    if p.len() == 0 {
        (Seq::empty(), Seq::empty())
    } else {
        let (done, cur) = component_scan(p.drop_last());
        if p.last() == '/' {
            (done + part_component(cur), Seq::empty())
        } else {
            (done, cur.push(p.last()))
        }
    }
}

/// The component a path starts with before its parts: a root for a path that starts with
/// `/`, else `.` for a path that is `.` or starts with `./`.
pub open spec fn leading_component(p: Seq<char>) -> Seq<(u8, Seq<char>)> {
    if p.len() > 0 && p[0] == '/' {
        seq![(ROOT_DIR, Seq::<char>::empty())]
    } else if p.len() > 0 && p[0] == '.' && (p.len() == 1 || p[1] == '/') {
        seq![(CUR_DIR, Seq::<char>::empty())]
    } else {
        Seq::empty()
    }
}

/// The components of a path: the leading one, then one for each part between `/`
/// separators, where empty parts and `.` give none and `..` gives a parent.
pub open spec fn path_components(p: Seq<char>) -> Seq<(u8, Seq<char>)> {
    let (done, cur) = component_scan(p);
    leading_component(p) + done + part_component(cur)
}

/// The components a vector of ranked character vectors stands for.
pub open spec fn components_view(cs: Seq<(u8, Vec<char>)>) -> Seq<(u8, Seq<char>)> {
    cs.map_values(|c: (u8, Vec<char>)| (c.0, c.1@))
}

/// Three-way comparison of optional paths: no file comes before any file.
pub open spec fn compare_files(a: Option<String>, b: Option<String>) -> int {
    match (a, b) {
        (None, None) => 0,
        (None, Some(_)) => -1,
        (Some(_), None) => 1,
        (Some(x), Some(y)) => compare_components(path_components(x@), path_components(y@)),
    }
}

pub open spec fn compare_u32(a: u32, b: u32) -> int {
    if a < b { -1 } else if a > b { 1 } else { 0 }
}

/// The order of hunks: by old file, then new file, then old start line, then new start line.
pub open spec fn compare_hunks(a: Hunk, b: Hunk) -> int {
    if compare_files(a.old_file, b.old_file) != 0 {
        compare_files(a.old_file, b.old_file)
    } else if compare_files(a.new_file, b.new_file) != 0 {
        compare_files(a.new_file, b.new_file)
    } else if compare_u32(a.old_start, b.old_start) != 0 {
        compare_u32(a.old_start, b.old_start)
    } else {
        compare_u32(a.new_start, b.new_start)
    }
}

/// Each two neighbours are in order.
pub open spec fn hunks_sorted(hs: Seq<Hunk>) -> bool {
    forall|i: int| 0 <= i < hs.len() - 1 ==> compare_hunks(#[trigger] hs[i], hs[i + 1]) <= 0
}

pub proof fn lemma_compare_chars_antisymmetric(a: Seq<char>, b: Seq<char>)
    ensures
        compare_chars(a, b) == -compare_chars(b, a),
        -1 <= compare_chars(a, b) <= 1,
        compare_chars(a, b) == 0 ==> a == b,
    decreases a.len(),
{
    if a.len() > 0 && b.len() > 0 {
        lemma_compare_chars_antisymmetric(a.drop_first(), b.drop_first());
        if compare_chars(a, b) == 0 {
            assert(a.drop_first() == b.drop_first());
            assert forall|i: int| 0 <= i < a.len() implies a[i] == b[i] by {
                if i > 0 {
                    assert(a[i] == a.drop_first()[i - 1]);
                    assert(b[i] == b.drop_first()[i - 1]);
                }
            }
            assert(a =~= b);
        }
    }
}

pub proof fn lemma_compare_components_antisymmetric(a: Seq<(u8, Seq<char>)>, b: Seq<(u8, Seq<char>)>)
    ensures
        compare_components(a, b) == -compare_components(b, a),
        -1 <= compare_components(a, b) <= 1,
    decreases a.len(),
{
    if a.len() > 0 && b.len() > 0 {
        lemma_compare_chars_antisymmetric(a[0].1, b[0].1);
        lemma_compare_components_antisymmetric(a.drop_first(), b.drop_first());
    }
}

pub proof fn lemma_compare_hunks_antisymmetric(a: Hunk, b: Hunk)
    ensures
        compare_hunks(a, b) == -compare_hunks(b, a),
        -1 <= compare_hunks(a, b) <= 1,
{
    match (a.old_file, b.old_file) {
        (Some(x), Some(y)) => lemma_compare_components_antisymmetric(path_components(x@), path_components(y@)),
        _ => {},
    }
    match (a.new_file, b.new_file) {
        (Some(x), Some(y)) => lemma_compare_components_antisymmetric(path_components(x@), path_components(y@)),
        _ => {},
    }
}

pub(crate) fn compare_char_vecs(a: &Vec<char>, b: &Vec<char>) -> (r: i8)
    ensures
        r == compare_chars(a@, b@),
{
    let mut i: usize = 0;
    assert(a@.skip(0) == a@ && b@.skip(0) == b@);
    while i < a.len() && i < b.len()
        invariant
            i <= a.len(),
            i <= b.len(),
            compare_chars(a@, b@) == compare_chars(a@.skip(i as int), b@.skip(i as int)),
        decreases a.len() - i,
    {
        let x = a[i];
        let y = b[i];
        assert(a@.skip(i as int)[0] == a@[i as int]);
        assert(b@.skip(i as int)[0] == b@[i as int]);
        if x < y {
            return -1;
        } else if x > y {
            return 1;
        }
        assert(a@.skip(i as int).drop_first() == a@.skip(i + 1));
        assert(b@.skip(i as int).drop_first() == b@.skip(i + 1));
        i = i + 1;
    }
    if i < a.len() {
        1
    } else if i < b.len() {
        -1
    } else {
        0
    }
}

/// Appends the component that a completed part gives.
fn push_part(done: &mut Vec<(u8, Vec<char>)>, part: Vec<char>)
    ensures
        components_view(final(done)@) == components_view(old(done)@) + part_component(part@),
{
    let ghost before = components_view(done@);
    let ghost text = part@;
    if part.len() == 0 {
        assert(part_component(text) =~= Seq::empty());
    } else if part.len() == 1 && part[0] == '.' {
        assert(text =~= seq!['.']);
        assert(part_component(text) =~= Seq::empty());
    } else if part.len() == 2 && part[0] == '.' && part[1] == '.' {
        assert(text =~= seq!['.', '.']);
        done.push((PARENT_DIR, Vec::new()));
        assert(components_view(done@) =~= before + part_component(text));
    } else {
        assert(text != seq!['.']) by {
            if text == seq!['.'] {
                assert(text.len() == 1 && text[0] == '.');
            }
        }
        assert(text != seq!['.', '.']) by {
            if text == seq!['.', '.'] {
                assert(text.len() == 2 && text[0] == '.' && text[1] == '.');
            }
        }
        done.push((NORMAL, part));
        assert(components_view(done@) =~= before + part_component(text));
    }
    assert(components_view(done@) =~= before + part_component(text));
}

/// The components of a path, each as its rank and text.
fn components_of(p: &str) -> (cs: Vec<(u8, Vec<char>)>)
    ensures
        components_view(cs@) == path_components(p@),
{
    let chars = crate::text::chars_of(p);
    let mut done: Vec<(u8, Vec<char>)> = Vec::new();
    if chars.len() > 0 && chars[0] == '/' {
        done.push((ROOT_DIR, Vec::new()));
    } else if chars.len() > 0 && chars[0] == '.' && (chars.len() == 1 || chars[1] == '/') {
        done.push((CUR_DIR, Vec::new()));
    }
    assert(components_view(done@) =~= leading_component(p@));
    let ghost lead = leading_component(p@);
    let mut cur: Vec<char> = Vec::new();
    let mut i: usize = 0;
    assert(chars@.take(0) =~= Seq::<char>::empty());
    assert(lead + Seq::<(u8, Seq<char>)>::empty() =~= lead);
    while i < chars.len()
        invariant
            i <= chars.len(),
            chars@ == p@,
            lead == leading_component(p@),
            components_view(done@) == lead + component_scan(chars@.take(i as int)).0,
            cur@ == component_scan(chars@.take(i as int)).1,
        decreases chars.len() - i,
    {
        let c = chars[i];
        proof {
            assert(chars@.take(i + 1).drop_last() == chars@.take(i as int));
        }
        let ghost scanned = component_scan(chars@.take(i as int)).0;
        if c == '/' {
            let part = cur;
            cur = Vec::new();
            push_part(&mut done, part);
            assert(lead + scanned + part_component(component_scan(chars@.take(i as int)).1)
                =~= lead + (scanned + part_component(component_scan(chars@.take(i as int)).1)));
        } else {
            cur.push(c);
        }
        i = i + 1;
    }
    assert(chars@.take(chars.len() as int) == chars@);
    push_part(&mut done, cur);
    done
}

fn compare_path_components(a: &Vec<(u8, Vec<char>)>, b: &Vec<(u8, Vec<char>)>) -> (r: i8)
    ensures
        r == compare_components(components_view(a@), components_view(b@)),
{
    let ghost va = components_view(a@);
    let ghost vb = components_view(b@);
    let mut i: usize = 0;
    assert(va.skip(0) == va && vb.skip(0) == vb);
    while i < a.len() && i < b.len()
        invariant
            i <= a.len(),
            i <= b.len(),
            va == components_view(a@),
            vb == components_view(b@),
            compare_components(va, vb) == compare_components(va.skip(i as int), vb.skip(i as int)),
        decreases a.len() - i,
    {
        assert(va.skip(i as int)[0] == (a@[i as int].0, a@[i as int].1@));
        assert(vb.skip(i as int)[0] == (b@[i as int].0, b@[i as int].1@));
        let r: i8 = if a[i].0 < b[i].0 {
            -1
        } else if a[i].0 > b[i].0 {
            1
        } else {
            compare_char_vecs(&a[i].1, &b[i].1)
        };
        if r != 0 {
            return r;
        }
        assert(va.skip(i as int).drop_first() == va.skip(i + 1));
        assert(vb.skip(i as int).drop_first() == vb.skip(i + 1));
        i = i + 1;
    }
    if i < a.len() {
        1
    } else if i < b.len() {
        -1
    } else {
        0
    }
}

fn compare_file_options(a: &Option<String>, b: &Option<String>) -> (r: i8)
    ensures
        r == compare_files(*a, *b),
{
    match (a, b) {
        (None, None) => 0,
        (None, Some(_)) => -1,
        (Some(_), None) => 1,
        (Some(x), Some(y)) => {
            let cx = components_of(x.as_str());
            let cy = components_of(y.as_str());
            compare_path_components(&cx, &cy)
        },
    }
}

/// Compares two hunks in the order by which a diff holds them.
pub fn compare_hunks_exec(a: &Hunk, b: &Hunk) -> (r: i8)
    ensures
        r == compare_hunks(*a, *b),
{
    let o = compare_file_options(&a.old_file, &b.old_file);
    if o != 0 {
        return o;
    }
    let n = compare_file_options(&a.new_file, &b.new_file);
    if n != 0 {
        return n;
    }
    if a.old_start < b.old_start {
        -1
    } else if a.old_start > b.old_start {
        1
    } else if a.new_start < b.new_start {
        -1
    } else if a.new_start > b.new_start {
        1
    } else {
        0
    }
}

/// `sorted` holds the hunks of `hunks` rearranged by `perm`: `sorted[k]` is `hunks[perm[k]]`,
/// each position taken once, and hunks that compare equal keep the order they had.
pub open spec fn stable_arrangement(hunks: Seq<Hunk>, sorted: Seq<Hunk>, perm: Seq<int>) -> bool {
    &&& perm.len() == hunks.len()
    &&& sorted.len() == hunks.len()
    &&& perm.no_duplicates()
    &&& forall|k: int| 0 <= k < perm.len() ==> 0 <= #[trigger] perm[k] < hunks.len() && sorted[k] == hunks[perm[k]]
    &&& forall|k: int, l: int| 0 <= k < l < perm.len() && compare_hunks(#[trigger] sorted[k], #[trigger] sorted[l]) == 0
        ==> perm[k] < perm[l]
}

/// Sorts hunks into the order of `compare_hunks`, keeping hunks that compare equal in the
/// order they came in.
#[verifier::spinoff_prover]
#[verifier::rlimit(60)]
pub fn sort_hunks(hunks: Vec<Hunk>) -> (sorted: Vec<Hunk>)
    ensures
        sorted@.to_multiset() == hunks@.to_multiset(),
        hunks_sorted(sorted@),
        exists|perm: Seq<int>| stable_arrangement(hunks@, sorted@, perm),
{
    broadcast use vstd::seq_lib::group_to_multiset_ensures;
    let ghost orig = hunks@;
    let ghost n = hunks@.len();
    let mut input = hunks;
    // the hunks from last to first, so that popping them gives them in order
    let mut rest: Vec<Hunk> = Vec::new();
    while input.len() > 0
        invariant
            input.len() + rest.len() == n,
            n == orig.len(),
            forall|k: int| 0 <= k < input.len() ==> input@[k] == orig[k],
            forall|k: int| 0 <= k < rest.len() ==> #[trigger] rest@[k] == orig[n - 1 - k],
            rest@.to_multiset().add(input@.to_multiset()) == orig.to_multiset(),
        decreases input.len(),
    {
        let ghost old_input = input@;
        let h = input.pop().unwrap();
        proof {
            assert(old_input == input@.push(h));
            vstd::seq_lib::to_multiset_build(input@, h);
            vstd::seq_lib::to_multiset_build(rest@, h);
        }
        rest.push(h);
    }
    assert(input@.to_multiset() =~= vstd::multiset::Multiset::empty());
    let mut sorted: Vec<Hunk> = Vec::new();
    let ghost mut perm: Seq<int> = Seq::empty();
    while rest.len() > 0
        invariant
            sorted.len() + rest.len() == n,
            n == orig.len(),
            forall|k: int| 0 <= k < rest.len() ==> #[trigger] rest@[k] == orig[n - 1 - k],
            sorted@.to_multiset().add(rest@.to_multiset()) == orig.to_multiset(),
            hunks_sorted(sorted@),
            perm.len() == sorted.len(),
            perm.no_duplicates(),
            forall|k: int| 0 <= k < perm.len() ==> 0 <= #[trigger] perm[k] < sorted.len() && sorted@[k] == orig[perm[k]],
            forall|k: int, l: int| 0 <= k < l < perm.len() && compare_hunks(#[trigger] sorted@[k], #[trigger] sorted@[l]) == 0
                ==> perm[k] < perm[l],
        decreases rest.len(),
    {
        let ghost i = sorted.len() as int;
        let ghost old_rest = rest@;
        let h = rest.pop().unwrap();
        proof {
            assert(old_rest == rest@.push(h));
            assert(h == old_rest[old_rest.len() - 1]);
            assert(h == orig[i]);
            vstd::seq_lib::to_multiset_build(rest@, h);
        }
        let mut pos = sorted.len();
        while pos > 0 && compare_hunks_exec(&sorted[pos - 1], &h) > 0
            invariant
                pos <= sorted.len(),
                forall|m: int| pos <= m < sorted.len() ==> compare_hunks(#[trigger] sorted@[m], h) > 0,
            decreases pos,
        {
            pos = pos - 1;
        }
        let ghost before = sorted@;
        let ghost perm0 = perm;
        sorted.insert(pos, h);
        proof {
            perm = perm0.insert(pos as int, i);
            assert(sorted@ == before.insert(pos as int, h));
            vstd::seq_lib::to_multiset_insert(before, pos as int, h);
            assert(sorted@.to_multiset() == before.to_multiset().insert(h));
            if pos < before.len() {
                lemma_compare_hunks_antisymmetric(before[pos as int], h);
            }
            assert forall|k: int| 0 <= k < sorted@.len() - 1 implies compare_hunks(#[trigger] sorted@[k], sorted@[k + 1]) <= 0 by {
                if k < pos - 1 {
                    assert(sorted@[k] == before[k] && sorted@[k + 1] == before[k + 1]);
                } else if k == pos - 1 {
                } else if k == pos {
                } else {
                    assert(sorted@[k] == before[k - 1] && sorted@[k + 1] == before[k]);
                }
            }
            assert forall|k: int| 0 <= k < perm.len() implies 0 <= #[trigger] perm[k] < sorted.len() && sorted@[k] == orig[perm[k]] by {
                if k < pos {
                    assert(perm[k] == perm0[k]);
                } else if k > pos {
                    assert(perm[k] == perm0[k - 1]);
                }
            }
            assert(perm.no_duplicates()) by {
                assert forall|a: int, b: int| 0 <= a < b < perm.len() implies perm[a] != perm[b] by {
                    if a < pos && b < pos {
                        assert(perm0[a] != perm0[b]);
                    } else if a < pos && b > pos {
                        assert(perm0[a] != perm0[b - 1]);
                    } else if a > pos && b > pos {
                        assert(perm0[a - 1] != perm0[b - 1]);
                    } else if a == pos {
                        assert(perm0[b - 1] < i);
                    } else {
                        assert(perm0[a] < i);
                    }
                }
            }
            assert forall|k: int, l: int| 0 <= k < l < perm.len() && compare_hunks(#[trigger] sorted@[k], #[trigger] sorted@[l]) == 0
                implies perm[k] < perm[l] by {
                if k < pos && l < pos {
                    assert(sorted@[k] == before[k] && sorted@[l] == before[l]);
                } else if k < pos && l > pos {
                    assert(sorted@[k] == before[k] && sorted@[l] == before[l - 1]);
                } else if k > pos {
                    assert(sorted@[k] == before[k - 1] && sorted@[l] == before[l - 1]);
                } else if k == pos {
                    assert(sorted@[l] == before[l - 1]);
                    assert(compare_hunks(before[l - 1], h) > 0);
                    lemma_compare_hunks_antisymmetric(before[l - 1], h);
                } else {
                    assert(perm[k] == perm0[k]);
                }
            }
        }
    }
    assert(rest@.to_multiset() =~= vstd::multiset::Multiset::empty());
    assert(stable_arrangement(orig, sorted@, perm));
    sorted
}

} // verus!
