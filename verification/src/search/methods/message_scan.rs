//! MessageScan: cherry-picks that `git cherry-pick -x` recorded in commit messages.
use vstd::prelude::*;
use vstd::hash_map::StringHashMap;

use crate::git::Commit;
use crate::search::{
    commit_metadata_model, insert_result, result_model, result_models, CherryAndTarget,
    MetadataModel, SearchResult,
};
use crate::text::{append_str, chars_of, find, find_exec, lemma_find, push_char};

verus! {

/// The text that `git cherry-pick -x` writes into the message of a pick, before the id of the
/// picked commit.
pub open spec fn cherry_marker() -> Seq<char> {
    "(cherry picked from commit "@
}

/// The text between the first marker in a message and the next `)`, if both occur.
pub open spec fn picked_id(m: Seq<char>) -> Option<Seq<char>> {
    let i = find(m, cherry_marker());
    if i < 0 {
        None
    } else {
        let rest = m.skip(i + cherry_marker().len());
        let j = find(rest, seq![')']);
        if j < 0 {
            None
        } else {
            Some(rest.take(j))
        }
    }
}

pub open spec fn is_hex_digit(c: char) -> bool {
    ('0' <= c <= '9') || ('a' <= c <= 'f') || ('A' <= c <= 'F')
}

/// A hexadecimal digit in lower case.
pub open spec fn hex_lower(c: char) -> char {
    if c == 'A' {
        'a'
    } else if c == 'B' {
        'b'
    } else if c == 'C' {
        'c'
    } else if c == 'D' {
        'd'
    } else if c == 'E' {
        'e'
    } else if c == 'F' {
        'f'
    } else {
        c
    }
}

/// The object id that a text names, as 40 lower-case hexadecimal digits: the text is 1 to 40
/// hexadecimal digits of either case, and a shorter one is padded with zeros on the right
/// (`git2::Oid::from_str`). Any other text names no object id.
pub open spec fn oid_text(s: Seq<char>) -> Option<Seq<char>> {
    if 1 <= s.len() <= 40 && forall|i: int| 0 <= i < s.len() ==> is_hex_digit(#[trigger] s[i]) {
        Some(Seq::new(40, |i: int| if i < s.len() { hex_lower(s[i]) } else { '0' }))
    } else {
        None
    }
}

/// The position of the last commit whose id names the object id `o`.
pub open spec fn last_with_oid(commits: Seq<Commit>, o: Seq<char>) -> Option<int>
    decreases commits.len(),
{
    if commits.len() == 0 {
        None
    } else if oid_text(commits.last().id@) == Some(o) {
        Some(commits.len() - 1)
    } else {
        last_with_oid(commits.drop_last(), o)
    }
}

/// What MessageScan reports for commit `c`: where its message names a picked commit that is
/// among the commits (the last such commit, where several have that id), the pair of that
/// commit and `c`.
pub open spec fn scan_result(commits: Seq<Commit>, c: Commit) -> Option<(Seq<char>, (MetadataModel, MetadataModel))> {
    match picked_id(c.message@) {
        None => None,
        Some(h) => match oid_text(h) {
            None => None,
            Some(o) => match last_with_oid(commits, o) {
                None => None,
                Some(k) => Some((message_scan_name(), (commit_metadata_model(commits[k]), commit_metadata_model(c)))),
            },
        },
    }
}

/// Every id that follows the marker in a message can be read as an object id.
pub open spec fn picked_ids_valid(commits: Seq<Commit>) -> bool {
    forall|i: int| 0 <= i < commits.len() ==> match picked_id(#[trigger] commits[i].message@) {
        Some(h) => oid_text(h) is Some,
        None => true,
    }
}

pub open spec fn message_scan_name() -> Seq<char> {
    "MessageScan"@
}

proof fn lemma_last_with_oid_bounds(commits: Seq<Commit>, o: Seq<char>)
    ensures
        last_with_oid(commits, o) matches Some(k) ==> 0 <= k < commits.len() && oid_text(commits[k].id@) == Some(o),
    decreases commits.len(),
{
    if commits.len() > 0 {
        lemma_last_with_oid_bounds(commits.drop_last(), o);
    }
}

/// The object id that `cs[from..to]` names, if it names one.
fn oid_from_chars(cs: &Vec<char>, from: usize, to: usize) -> (r: Option<String>)
    requires
        from <= to <= cs.len(),
    ensures
        match r {
            Some(o) => oid_text(cs@.subrange(from as int, to as int)) == Some(o@),
            None => oid_text(cs@.subrange(from as int, to as int)) is None,
        },
{
    let ghost s = cs@.subrange(from as int, to as int);
    if to - from < 1 || to - from > 40 {
        return None;
    }
    let mut o = String::new();
    let mut i: usize = from;
    while i < to
        invariant
            from <= i <= to <= cs.len(),
            1 <= to - from <= 40,
            s == cs@.subrange(from as int, to as int),
            forall|k: int| 0 <= k < i - from ==> is_hex_digit(#[trigger] s[k]),
            o@ == Seq::new((i - from) as nat, |k: int| hex_lower(s[k])),
        decreases to - i,
    {
        let c = cs[i];
        assert(c == s[i - from]);
        let lower = if c == 'A' {
            'a'
        } else if c == 'B' {
            'b'
        } else if c == 'C' {
            'c'
        } else if c == 'D' {
            'd'
        } else if c == 'E' {
            'e'
        } else if c == 'F' {
            'f'
        } else if ('0' <= c && c <= '9') || ('a' <= c && c <= 'f') {
            c
        } else {
            return None;
        };
        push_char(&mut o, lower);
        i = i + 1;
        assert(o@ =~= Seq::new((i - from) as nat, |k: int| hex_lower(s[k])));
    }
    let mut n: usize = to - from;
    while n < 40
        invariant
            n == o@.len(),
            s.len() <= o@.len() <= 40,
            1 <= s.len() <= 40,
            forall|k: int| 0 <= k < s.len() ==> is_hex_digit(#[trigger] s[k]),
            o@ == Seq::new(o@.len(), |k: int| if k < s.len() { hex_lower(s[k]) } else { '0' }),
        decreases 40 - o@.len(),
    {
        let ghost before = o@;
        push_char(&mut o, '0');
        n = n + 1;
        assert(o@ =~= Seq::new(o@.len(), |k: int| if k < s.len() { hex_lower(s[k]) } else { '0' }));
    }
    assert(o@ =~= Seq::new(40, |k: int| if k < s.len() { hex_lower(s[k]) } else { '0' }));
    Some(o)
}

/// MessageScan identifies cherry picks based on the automatically created text in a commit
/// message: `git cherry-pick -x` writes `(cherry picked from commit <id>)` into the message of
/// the pick. Under the assumption that no message holds such a text by mistake, the results
/// are correct; picks made without `-x` are not found.
#[derive(Default)]
pub struct MessageScan();

impl MessageScan {
    pub fn name(&self) -> (s: &'static str)
        ensures
            s@ == message_scan_name(),
    {
        "MessageScan"
    }

    /// The pair of each commit whose message names a picked commit among the commits, and that
    /// commit; each pair once.
    pub fn search(&self, commits: &[Commit]) -> (results: Vec<SearchResult>)
        requires
            picked_ids_valid(commits@),
        ensures
            result_models(results@).no_duplicates(),
            forall|x: (Seq<char>, (MetadataModel, MetadataModel))| result_models(results@).contains(x)
                <==> exists|i: int| 0 <= i < commits.len() && scan_result(commits@, #[trigger] commits@[i]) == Some(x),
    {
        // map the object id of each commit to the last commit with that id
        let mut commit_map: StringHashMap<usize> = StringHashMap::new();
        let mut i: usize = 0;
        while i < commits.len()
            invariant
                i <= commits.len(),
                forall|o: Seq<char>| #[trigger] commit_map@.contains_key(o)
                    <==> last_with_oid(commits@.take(i as int), o) is Some,
                forall|o: Seq<char>| commit_map@.contains_key(o)
                    ==> last_with_oid(commits@.take(i as int), o) == Some(#[trigger] commit_map@[o] as int),
            decreases commits.len() - i,
        {
            let id = chars_of(commits[i].id.as_str());
            let ghost t = commits@.take(i + 1);
            proof {
                assert(t.drop_last() == commits@.take(i as int));
                assert(t.last() == commits@[i as int]);
                assert(id@.subrange(0, id.len() as int) == commits@[i as int].id@);
            }
            match oid_from_chars(&id, 0, id.len()) {
                Some(o) => {
                    commit_map.insert(o, i);
                },
                None => {},
            }
            i = i + 1;
        }
        assert(commits@.take(commits.len() as int) == commits@);
        proof {
            reveal_strlit("(cherry picked from commit ");
            reveal_strlit("MessageScan");
        }
        let marker = chars_of("(cherry picked from commit ");
        let mut close: Vec<char> = Vec::new();
        close.push(')');
        let mut results: Vec<SearchResult> = Vec::new();
        let mut c: usize = 0;
        while c < commits.len()
            invariant
                c <= commits.len(),
                picked_ids_valid(commits@),
                marker@ == cherry_marker(),
                close@ == seq![')'],
                forall|o: Seq<char>| #[trigger] commit_map@.contains_key(o) <==> last_with_oid(commits@, o) is Some,
                forall|o: Seq<char>| commit_map@.contains_key(o) ==> last_with_oid(commits@, o) == Some(#[trigger] commit_map@[o] as int),
                result_models(results@).no_duplicates(),
                forall|x: (Seq<char>, (MetadataModel, MetadataModel))| result_models(results@).contains(x)
                    <==> exists|i: int| 0 <= i < c && scan_result(commits@, #[trigger] commits@[i]) == Some(x),
            decreases commits.len() - c,
        {
            let commit = &commits[c];
            let m = chars_of(commit.message.as_str());
            let ghost mv = m@;
            let ghost found: Option<(Seq<char>, (MetadataModel, MetadataModel))> = None;
            let ghost r0 = result_models(results@);
            proof {
                assert(mv.subrange(0, mv.len() as int) == mv);
                assert(commit.message@ == mv);
                lemma_find(mv, cherry_marker());
            }
            match find_exec(&m, 0, m.len(), &marker) {
                None => {},
                Some(index) => {
                    let start = index + marker.len();
                    let ghost rest = mv.skip(start as int);
                    assert(m@.subrange(start as int, m.len() as int) == rest);
                    proof {
                        lemma_find(rest, seq![')']);
                    }
                    match find_exec(&m, start, m.len(), &close) {
                        None => {},
                        Some(end) => {
                            assert(rest.take(end as int) == m@.subrange(start as int, (start + end) as int));
                            assert(picked_id(commit.message@) == Some(rest.take(end as int)));
                            assert(picked_id(commits@[c as int].message@) == Some(rest.take(end as int)));
                            match oid_from_chars(&m, start, start + end) {
                                None => {
                                    assert(false);
                                },
                                Some(o) => {
                                    match commit_map.get(o.as_str()) {
                                        None => {},
                                        Some(k) => {
                                            let k = *k;
                                            proof {
                                                lemma_last_with_oid_bounds(commits@, o@);
                                            }
                                            let mut name = String::new();
                                            append_str(&mut name, "MessageScan");
                                            let r = SearchResult::new(name, CherryAndTarget::new(&commits[k], commit));
                                            proof {
                                                found = Some(result_model(r));
                                                assert(scan_result(commits@, commits@[c as int]) == found);
                                            }
                                            insert_result(&mut results, r);
                                        },
                                    }
                                },
                            }
                        },
                    }
                },
            }
            proof {
                assert(scan_result(commits@, commits@[c as int]) == found);
                assert(found is None ==> result_models(results@) == r0);
                assert(found matches Some(fm) ==> result_models(results@) == (if r0.contains(fm) { r0 } else { r0.push(fm) }));
                match found {
                    Some(fm) => {
                        if !r0.contains(fm) {
                            let r1 = r0.push(fm);
                            assert forall|x: (Seq<char>, (MetadataModel, MetadataModel))| r1.contains(x)
                                <==> (r0.contains(x) || fm == x) by {
                                if r1.contains(x) {
                                    let j = choose|j: int| 0 <= j < r1.len() && r1[j] == x;
                                    if j < r0.len() {
                                        assert(r0[j] == x);
                                    }
                                }
                                if r0.contains(x) {
                                    let j = choose|j: int| 0 <= j < r0.len() && r0[j] == x;
                                    assert(r1[j] == x);
                                }
                                if fm == x {
                                    assert(r1[r0.len() as int] == x);
                                }
                            }
                            assert forall|a: int, b: int| 0 <= a < b < r1.len() implies r1[a] != r1[b] by {
                                if b == r0.len() {
                                    assert(r0[a] == r1[a]);
                                }
                            }
                        }
                    },
                    None => {},
                }
                assert forall|x: (Seq<char>, (MetadataModel, MetadataModel))| result_models(results@).contains(x)
                    <==> (r0.contains(x) || found == Some(x)) by {}
                assert forall|x: (Seq<char>, (MetadataModel, MetadataModel))| result_models(results@).contains(x)
                    <==> exists|i: int| 0 <= i < c + 1 && scan_result(commits@, #[trigger] commits@[i]) == Some(x) by {
                    if exists|i: int| 0 <= i < c + 1 && scan_result(commits@, #[trigger] commits@[i]) == Some(x) {
                        let i = choose|i: int| 0 <= i < c + 1 && scan_result(commits@, #[trigger] commits@[i]) == Some(x);
                        if i < c {
                            assert(exists|i: int| 0 <= i < c && scan_result(commits@, #[trigger] commits@[i]) == Some(x));
                        }
                    }
                }
            }
            c = c + 1;
        }
        results
    }
}

} // verus!
