//! The walk through the history of a commit: its parents, then their parents, level by level,
//! each commit once. Which commits are loaded, and when, is decided here; loading them is the
//! caller's part.
use vstd::prelude::*;
use vstd::hash_map::StringHashMap;

verus! {

pub open spec fn ids_view(v: Seq<String>) -> Seq<Seq<char>> {
    v.map_values(|s: String| s@)
}

/// The first position at or after `pos` whose id has not been seen.
pub open spec fn first_unseen(level: Seq<Seq<char>>, pos: int, seen: Set<Seq<char>>) -> Option<int>
    decreases level.len() - pos,
{
    if pos < 0 || pos >= level.len() {
        None
    } else if !seen.contains(level[pos]) {
        Some(pos)
    } else {
        first_unseen(level, pos + 1, seen)
    }
}

/// A walk through the history of a commit. The commit itself is collected; of the commits
/// before it, each is visited once, level by level, and collected.
pub struct HistoryWalk {
    /// The ids of the commits handed out so far, the start included.
    pub seen: StringHashMap<()>,
    /// The ids of the current level, and the position of the next one to consider.
    pub level: Vec<String>,
    pub position: usize,
    /// The parents of the commits of the current level visited so far: the next level.
    pub next_level: Vec<String>,
    /// The ids of the commits collected so far, in order.
    pub collected: Vec<String>,
    /// The commit handed out to be loaded and visited.
    pub pending: Option<String>,
}

impl HistoryWalk {
    pub open spec fn seen_ids(&self) -> Set<Seq<char>> {
        self.seen@.dom()
    }

    /// Every collected or handed-out commit has been seen, no commit is collected twice, and the
    /// commit handed out is not collected yet.
    pub open spec fn wf(&self) -> bool {
        &&& self.position <= self.level.len()
        &&& ids_view(self.collected@).no_duplicates()
        &&& forall|i: int| 0 <= i < self.collected.len() ==> self.seen_ids().contains(#[trigger] self.collected@[i]@)
        &&& (self.pending matches Some(p) ==> self.seen_ids().contains(p@) && !ids_view(self.collected@).contains(p@))
    }

    /// A walk from the given commit, which is collected, with its parents as the first level.
    pub fn new(start: String, start_parents: Vec<String>) -> (w: Self)
        ensures
            w.wf(),
            w.seen_ids() == set![start@],
            w.level == start_parents,
            w.position == 0,
            w.next_level@ == Seq::<String>::empty(),
            ids_view(w.collected@) == seq![start@],
            w.pending is None,
    {
        let mut seen: StringHashMap<()> = StringHashMap::new();
        seen.insert(start.clone(), ());
        let mut collected: Vec<String> = Vec::new();
        collected.push(start);
        let w = HistoryWalk { seen, level: start_parents, position: 0, next_level: Vec::new(), collected, pending: None };
        assert(w.seen_ids() =~= set![w.collected@[0]@]);
        assert(ids_view(w.collected@) =~= seq![w.collected@[0]@]);
        w
    }

    /// Goes on through the current level to the next commit not seen before; hands it out and
    /// marks it seen.
    fn scan_level(&mut self) -> (r: Option<String>)
        requires
            old(self).wf(),
            old(self).pending is None,
        ensures
            final(self).wf(),
            final(self).level == old(self).level,
            final(self).next_level == old(self).next_level,
            final(self).collected == old(self).collected,
            match first_unseen(ids_view(old(self).level@), old(self).position as int, old(self).seen_ids()) {
                Some(k) => r is Some && r->Some_0@ == old(self).level@[k]@
                    && final(self).position == k + 1
                    && final(self).seen_ids() == old(self).seen_ids().insert(old(self).level@[k]@)
                    && final(self).pending is Some && final(self).pending->Some_0@ == r->Some_0@,
                None => r is None
                    && final(self).position == old(self).level.len()
                    && final(self).seen_ids() == old(self).seen_ids()
                    && final(self).pending is None,
            },
    {
        let ghost lv = ids_view(self.level@);
        let ghost s0 = self.seen_ids();
        let ghost p0 = self.position as int;
        while self.position < self.level.len()
            invariant
                self.wf(),
                self.pending is None,
                self.level == old(self).level,
                self.next_level == old(self).next_level,
                self.collected == old(self).collected,
                self.seen_ids() == s0,
                lv == ids_view(self.level@),
                lv == ids_view(old(self).level@),
                p0 == old(self).position,
                s0 == old(self).seen_ids(),
                p0 <= self.position <= self.level.len(),
                first_unseen(lv, p0, s0) == first_unseen(lv, self.position as int, s0),
            decreases self.level.len() - self.position,
        {
            let k = self.position;
            self.position = k + 1;
            assert(lv[k as int] == self.level@[k as int]@);
            if !self.seen.contains_key(self.level[k].as_str()) {
                let id = self.level[k].clone();
                self.seen.insert(id.clone(), ());
                proof {
                    assert forall|i: int| 0 <= i < self.collected.len() implies self.seen_ids().contains(#[trigger] self.collected@[i]@) by {
                        assert(s0.contains(self.collected@[i]@));
                    }
                    if ids_view(self.collected@).contains(id@) {
                        let i = choose|i: int| 0 <= i < self.collected.len() && #[trigger] ids_view(self.collected@)[i] == id@;
                        assert(s0.contains(self.collected@[i]@));
                    }
                }
                assert(!s0.contains(lv[k as int]));
                assert(first_unseen(lv, k as int, s0) == Some(k as int));
                assert(self.seen_ids() =~= s0.insert(lv[k as int]));
                let handed_out = id.clone();
                self.pending = Some(id);
                return Some(handed_out);
            }
        }
        None
    }

    /// The next commit to load and visit: the next one not seen before on the current level;
    /// once the level is done, the walk goes on with the next level. `None` once no commit is
    /// left.
    pub fn next(&mut self) -> (r: Option<String>)
        requires
            old(self).wf(),
            old(self).pending is None,
        ensures
            final(self).wf(),
            final(self).collected == old(self).collected,
            match first_unseen(ids_view(old(self).level@), old(self).position as int, old(self).seen_ids()) {
                Some(k) => r is Some && r->Some_0@ == old(self).level@[k]@
                    && final(self).level == old(self).level
                    && final(self).next_level == old(self).next_level
                    && final(self).position == k + 1
                    && final(self).seen_ids() == old(self).seen_ids().insert(old(self).level@[k]@)
                    && final(self).pending is Some && final(self).pending->Some_0@ == r->Some_0@,
                None => if old(self).next_level.len() == 0 {
                    r is None
                        && final(self).level == old(self).level
                        && final(self).position == old(self).level.len()
                        && final(self).next_level@ == Seq::<String>::empty()
                        && final(self).seen_ids() == old(self).seen_ids()
                        && final(self).pending is None
                } else {
                    final(self).level == old(self).next_level
                        && final(self).next_level@ == Seq::<String>::empty()
                        && match first_unseen(ids_view(old(self).next_level@), 0, old(self).seen_ids()) {
                            Some(k) => r is Some && r->Some_0@ == old(self).next_level@[k]@
                                && final(self).position == k + 1
                                && final(self).seen_ids() == old(self).seen_ids().insert(old(self).next_level@[k]@)
                                && final(self).pending is Some && final(self).pending->Some_0@ == r->Some_0@,
                            None => r is None
                                && final(self).position == old(self).next_level.len()
                                && final(self).seen_ids() == old(self).seen_ids()
                                && final(self).pending is None,
                        }
                },
            },
    {
        let found = self.scan_level();
        if found.is_some() || self.next_level.len() == 0 {
            return found;
        }
        let mut upcoming: Vec<String> = Vec::new();
        std::mem::swap(&mut upcoming, &mut self.next_level);
        self.level = upcoming;
        self.position = 0;
        self.scan_level()
    }

    /// Takes in the parents of the commit handed out: they join the next level, and the commit
    /// is collected.
    pub fn visit(&mut self, parents: Vec<String>)
        requires
            old(self).wf(),
            old(self).pending is Some,
        ensures
            final(self).wf(),
            final(self).level == old(self).level,
            final(self).position == old(self).position,
            final(self).next_level@ == old(self).next_level@ + parents@,
            final(self).seen_ids() == old(self).seen_ids(),
            final(self).pending is None,
            ids_view(final(self).collected@) == ids_view(old(self).collected@).push(old(self).pending->Some_0@),
    {
        let mut pending: Option<String> = None;
        std::mem::swap(&mut pending, &mut self.pending);
        let id = match pending {
            Some(id) => id,
            None => vstd::pervasive::unreached(),
        };
        let mut parents = parents;
        self.next_level.append(&mut parents);
        {
            let ghost c0 = ids_view(self.collected@);
            self.collected.push(id);
            proof {
                assert(ids_view(self.collected@) =~= c0.push(self.collected@[c0.len() as int]@));
                assert forall|a: int, b: int| 0 <= a < b < self.collected.len()
                    implies ids_view(self.collected@)[a] != ids_view(self.collected@)[b] by {
                    if b == c0.len() {
                        assert(c0[a] == ids_view(self.collected@)[a]);
                        assert(c0.contains(c0[a]));
                    } else {
                        assert(c0[a] == ids_view(self.collected@)[a] && c0[b] == ids_view(self.collected@)[b]);
                    }
                }
            }
        }
    }
}

} // verus!
