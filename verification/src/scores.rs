use vstd::prelude::*;

verus! {

/// Whether no two entries of `s` have the same name.
pub open spec fn distinct_names<V>(s: Seq<(String, V)>) -> bool {
    forall|i: int, j: int| 0 <= i < s.len() && 0 <= j < s.len() && i != j ==> #[trigger] s[i].0@
        != #[trigger] s[j].0@
}

/// Whether some entry of `s` has the name `k`.
pub open spec fn has_name<V>(s: Seq<(String, V)>, k: Seq<char>) -> bool {
    exists|i: int| 0 <= i < s.len() && #[trigger] s[i].0@ == k
}

/// The position of the entry of `s` named `k`.
pub open spec fn name_index<V>(s: Seq<(String, V)>, k: Seq<char>) -> int {
    choose|i: int| 0 <= i < s.len() && #[trigger] s[i].0@ == k
}

proof fn lemma_name_index<V>(s: Seq<(String, V)>, i: int)
    requires
        distinct_names(s),
        0 <= i < s.len(),
    ensures
        has_name(s, s[i].0@),
        name_index(s, s[i].0@) == i,
{
    assert(s[i].0@ == s[i].0@);
}

/// Replacing the value of an entry keeps the names distinct and changes the
/// value of that name only.
proof fn lemma_update_entry<V>(before: Seq<(String, V)>, i: int, e: (String, V))
    requires
        distinct_names(before),
        0 <= i < before.len(),
        before[i].0@ == e.0@,
    ensures
        distinct_names(before.update(i, e)),
        entries_view(before.update(i, e)) == entries_view(before).insert(e.0@, e.1),
{
    let after = before.update(i, e);
    let k = e.0@;
    assert forall|a: int, b: int|
        0 <= a < after.len() && 0 <= b < after.len() && a != b implies #[trigger] after[a].0@
        != #[trigger] after[b].0@ by {
        assert(before[a].0@ != before[b].0@);
    }
    assert forall|kk: Seq<char>| has_name(after, kk) <==> has_name(before, kk) by {
        if has_name(before, kk) {
            let j = choose|j: int| 0 <= j < before.len() && #[trigger] before[j].0@ == kk;
            assert(after[j].0@ == kk);
        }
        if has_name(after, kk) {
            let j = choose|j: int| 0 <= j < after.len() && #[trigger] after[j].0@ == kk;
            assert(before[j].0@ == kk);
        }
    }
    assert forall|kk: Seq<char>| #[trigger] has_name(after, kk) implies after[name_index(
        after,
        kk,
    )].1 == (if kk == k {
        e.1
    } else {
        entries_view(before)[kk]
    }) by {
        let j = name_index(after, kk);
        lemma_name_index(after, j);
        lemma_name_index(before, j);
    }
    assert(has_name(before, k)) by {
        assert(before[i].0@ == k);
    }
    assert(entries_view(after) =~= entries_view(before).insert(k, e.1));
}

/// Adding an entry with a new name keeps the names distinct and gives that
/// name its value.
proof fn lemma_push_entry<V>(before: Seq<(String, V)>, e: (String, V))
    requires
        distinct_names(before),
        !has_name(before, e.0@),
    ensures
        distinct_names(before.push(e)),
        entries_view(before.push(e)) == entries_view(before).insert(e.0@, e.1),
{
    let after = before.push(e);
    let k = e.0@;
    let n = before.len() as int;
    assert forall|a: int, b: int|
        0 <= a < after.len() && 0 <= b < after.len() && a != b implies #[trigger] after[a].0@
        != #[trigger] after[b].0@ by {
        if a < n && b < n {
            assert(before[a].0@ != before[b].0@);
        } else if a < n {
            assert(before[a].0@ == before[a].0@);
        } else {
            assert(before[b].0@ == before[b].0@);
        }
    }
    assert forall|kk: Seq<char>| has_name(after, kk) <==> (has_name(before, kk) || kk == k) by {
        if has_name(before, kk) {
            let j = choose|j: int| 0 <= j < before.len() && #[trigger] before[j].0@ == kk;
            assert(after[j].0@ == kk);
        }
        if kk == k {
            assert(after[n].0@ == kk);
        }
        if has_name(after, kk) && kk != k {
            let j = choose|j: int| 0 <= j < after.len() && #[trigger] after[j].0@ == kk;
            assert(before[j].0@ == kk);
        }
    }
    assert forall|kk: Seq<char>| #[trigger] has_name(after, kk) implies after[name_index(
        after,
        kk,
    )].1 == (if kk == k {
        e.1
    } else {
        entries_view(before)[kk]
    }) by {
        let j = name_index(after, kk);
        lemma_name_index(after, j);
        if j < n {
            lemma_name_index(before, j);
        }
    }
    assert(entries_view(after) =~= entries_view(before).insert(k, e.1));
}

/// The position of the entry named `name` in `s`, if any.
fn find_name<V>(s: &Vec<(String, V)>, name: &String) -> (r: Option<usize>)
    ensures
        match r {
            Some(i) => i < s.len() && s@[i as int].0@ == name@,
            None => !has_name(s@, name@),
        },
{
    let mut i: usize = 0;
    while i < s.len()
        invariant
            i <= s.len(),
            forall|j: int| 0 <= j < i ==> #[trigger] s@[j].0@ != name@,
        decreases s.len() - i,
    {
        if s[i].0 == *name {
            return Some(i);
        }
        i = i + 1;
    }
    None
}

/// The value of each name among the entries `s`.
pub open spec fn entries_view<V>(s: Seq<(String, V)>) -> Map<Seq<char>, V> {
    Map::new(|k: Seq<char>| has_name(s, k), |k: Seq<char>| s[name_index(s, k)].1)
}

/// The scores read from one screenshot: at most one score for each name.
pub struct ScoreMap {
    entries: Vec<(String, u32)>,
}

impl ScoreMap {
    #[verifier::type_invariant]
    spec fn names_distinct(self) -> bool {
        distinct_names(self.entries@)
    }

    /// The score of each name.
    pub closed spec fn view(&self) -> Map<Seq<char>, u32> {
        entries_view(self.entries@)
    }

    /// A map without scores.
    pub fn new() -> (m: Self)
        ensures
            m.view() == Map::<Seq<char>, u32>::empty(),
    {
        let m = ScoreMap { entries: Vec::new() };
        assert(m.view() =~= Map::<Seq<char>, u32>::empty());
        m
    }

    /// Records `score` for `name`, replacing the score it had.
    pub fn insert(&mut self, name: String, score: u32)
        ensures
            final(self).view() == old(self).view().insert(name@, score),
    {
        proof {
            use_type_invariant(&*self);
        }
        let found = find_name(&self.entries, &name);
        let mut entries: Vec<(String, u32)> = Vec::new();
        std::mem::swap(&mut entries, &mut self.entries);
        match found {
            Some(i) => {
                proof {
                    lemma_update_entry(entries@, i as int, (name, score));
                }
                entries.set(i, (name, score));
            },
            None => {
                proof {
                    lemma_push_entry(entries@, (name, score));
                }
                entries.push((name, score));
            },
        }
        self.entries = entries;
    }

    /// The score recorded for `name`, if any.
    pub fn get(&self, name: &String) -> (r: Option<u32>)
        ensures
            r == (if self.view().contains_key(name@) {
                Some(self.view()[name@])
            } else {
                None::<u32>
            }),
    {
        proof {
            use_type_invariant(self);
        }
        match find_name(&self.entries, name) {
            Some(i) => {
                proof {
                    lemma_name_index(self.entries@, i as int);
                }
                Some(self.entries[i].1)
            },
            None => None,
        }
    }

    /// The number of names with a score.
    pub fn len(&self) -> (n: usize)
        ensures
            n == self.entry_count(),
    {
        self.entries.len()
    }

    /// The number of names with a score.
    pub closed spec fn entry_count(&self) -> nat {
        self.entries@.len()
    }

    /// The name and score of entry `i`.
    pub fn entry(&self, i: usize) -> (e: (String, u32))
        requires
            i < self.entry_count(),
        ensures
            self.view().contains_key(e.0@),
            self.view()[e.0@] == e.1,
    {
        proof {
            use_type_invariant(self);
            lemma_name_index(self.entries@, i as int);
        }
        (self.entries[i].0.clone(), self.entries[i].1)
    }
}


/// The scores stored for `k` in `t`, none when `k` has no entry.
pub open spec fn scores_of(t: Map<Seq<char>, Seq<u32>>, k: Seq<char>) -> Seq<u32> {
    if t.contains_key(k) {
        t[k]
    } else {
        Seq::empty()
    }
}

/// `t` with `score` added after the scores of `k`.
pub open spec fn with_score(t: Map<Seq<char>, Seq<u32>>, k: Seq<char>, score: u32) -> Map<
    Seq<char>,
    Seq<u32>,
> {
    t.insert(k, scores_of(t, k).push(score))
}

/// `t` with the scores of one screenshot added: each name read there gets
/// its score added after those it had.
pub open spec fn with_screenshot(t: Map<Seq<char>, Seq<u32>>, m: Map<Seq<char>, u32>) -> Map<
    Seq<char>,
    Seq<u32>,
> {
    Map::new(
        |k: Seq<char>| t.contains_key(k) || m.contains_key(k),
        |k: Seq<char>|
            if m.contains_key(k) {
                scores_of(t, k).push(m[k])
            } else {
                t[k]
            },
    )
}

/// `t` with the scores of the screenshots `ms` added in turn.
pub open spec fn with_screenshots(t: Map<Seq<char>, Seq<u32>>, ms: Seq<Map<Seq<char>, u32>>) -> Map<
    Seq<char>,
    Seq<u32>,
>
    decreases ms.len(),
{
    if ms.len() == 0 {
        t
    } else {
        with_screenshot(with_screenshots(t, ms.drop_last()), ms.last())
    }
}

/// The scores of each name among the entries `s`.
pub open spec fn table_view(s: Seq<(String, Vec<u32>)>) -> Map<Seq<char>, Seq<u32>> {
    entries_view(s).map_values(|v: Vec<u32>| v@)
}

proof fn lemma_table_view_insert(s: Seq<(String, Vec<u32>)>, after: Seq<(String, Vec<u32>)>, e: (String, Vec<u32>))
    requires
        entries_view(after) == entries_view(s).insert(e.0@, e.1),
    ensures
        table_view(after) == table_view(s).insert(e.0@, e.1@),
{
    assert(table_view(after) =~= table_view(s).insert(e.0@, e.1@));
}

/// Adds `score` after the scores of `name` among `entries`.
fn push_entry_score(entries: &mut Vec<(String, Vec<u32>)>, name: String, score: u32)
    requires
        distinct_names(old(entries)@),
    ensures
        distinct_names(final(entries)@),
        table_view(final(entries)@) == with_score(table_view(old(entries)@), name@, score),
{
    let ghost before = entries@;
    match find_name(entries, &name) {
        Some(i) => {
            let mut scores = entries[i].1.clone();
            assert(scores@ =~= entries@[i as int].1@);
            scores.push(score);
            proof {
                lemma_name_index(before, i as int);
                lemma_update_entry(before, i as int, (name, scores));
                lemma_table_view_insert(before, before.update(i as int, (name, scores)), (name, scores));
            }
            entries.set(i, (name, scores));
        },
        None => {
            let mut scores: Vec<u32> = Vec::new();
            scores.push(score);
            proof {
                lemma_push_entry(before, (name, scores));
                lemma_table_view_insert(before, before.push((name, scores)), (name, scores));
                assert(scores@ =~= Seq::<u32>::empty().push(score));
            }
            entries.push((name, scores));
        },
    }
}

/// Adding one more name's score to a screenshot's scores adds it to the
/// table after the others.
proof fn lemma_with_screenshot_insert(
    t: Map<Seq<char>, Seq<u32>>,
    m: Map<Seq<char>, u32>,
    k: Seq<char>,
    v: u32,
)
    requires
        !m.contains_key(k),
    ensures
        with_screenshot(t, m.insert(k, v)) == with_score(with_screenshot(t, m), k, v),
{
    assert(with_screenshot(t, m.insert(k, v)) =~= with_score(with_screenshot(t, m), k, v));
}

/// The scores of every name: the table kept across screenshots.
pub struct ScoreTable {
    entries: Vec<(String, Vec<u32>)>,
}

impl ScoreTable {
    #[verifier::type_invariant]
    spec fn names_distinct(self) -> bool {
        distinct_names(self.entries@)
    }

    /// The scores of each name.
    pub closed spec fn view(&self) -> Map<Seq<char>, Seq<u32>> {
        table_view(self.entries@)
    }

    /// The number of names with scores.
    pub closed spec fn entry_count(&self) -> nat {
        self.entries@.len()
    }

    /// A table without scores.
    pub fn new() -> (t: Self)
        ensures
            t.view() == Map::<Seq<char>, Seq<u32>>::empty(),
    {
        let t = ScoreTable { entries: Vec::new() };
        assert(t.view() =~= Map::<Seq<char>, Seq<u32>>::empty());
        t
    }

    /// Stores `scores` as the scores of `name`, replacing those it had.
    pub fn insert_scores(&mut self, name: String, scores: Vec<u32>)
        ensures
            final(self).view() == old(self).view().insert(name@, scores@),
    {
        proof {
            use_type_invariant(&*self);
        }
        let found = find_name(&self.entries, &name);
        let mut entries: Vec<(String, Vec<u32>)> = Vec::new();
        std::mem::swap(&mut entries, &mut self.entries);
        match found {
            Some(i) => {
                proof {
                    lemma_update_entry(entries@, i as int, (name, scores));
                    lemma_table_view_insert(entries@, entries@.update(i as int, (name, scores)), (name, scores));
                }
                entries.set(i, (name, scores));
            },
            None => {
                proof {
                    lemma_push_entry(entries@, (name, scores));
                    lemma_table_view_insert(entries@, entries@.push((name, scores)), (name, scores));
                }
                entries.push((name, scores));
            },
        }
        self.entries = entries;
    }

    /// Adds `score` after the scores of `name`, giving `name` an entry if it
    /// had none.
    pub fn push_score(&mut self, name: String, score: u32)
        ensures
            final(self).view() == with_score(old(self).view(), name@, score),
    {
        proof {
            use_type_invariant(&*self);
        }
        let mut entries: Vec<(String, Vec<u32>)> = Vec::new();
        std::mem::swap(&mut entries, &mut self.entries);
        push_entry_score(&mut entries, name, score);
        self.entries = entries;
    }

    /// Adds the scores read from one screenshot.
    pub fn add_scores(&mut self, new_scores: &ScoreMap)
        ensures
            final(self).view() == with_screenshot(old(self).view(), new_scores.view()),
    {
        proof {
            use_type_invariant(&*self);
            use_type_invariant(new_scores);
        }
        let ghost old_view = self.view();
        let mut entries: Vec<(String, Vec<u32>)> = Vec::new();
        std::mem::swap(&mut entries, &mut self.entries);
        let n = new_scores.entries.len();
        let mut i: usize = 0;
        proof {
            assert(entries_view(new_scores.entries@.take(0)) =~= Map::<Seq<char>, u32>::empty());
            assert(with_screenshot(old_view, Map::<Seq<char>, u32>::empty()) =~= old_view);
        }
        while i < n
            invariant
                n == new_scores.entries.len(),
                i <= n,
                distinct_names(new_scores.entries@),
                distinct_names(entries@),
                table_view(entries@) == with_screenshot(
                    old_view,
                    entries_view(new_scores.entries@.take(i as int)),
                ),
            decreases n - i,
        {
            let name = new_scores.entries[i].0.clone();
            let score = new_scores.entries[i].1;
            let ghost prefix = new_scores.entries@.take(i as int);
            let ghost e = new_scores.entries@[i as int];
            proof {
                assert(new_scores.entries@.take(i + 1) == prefix.push(e));
                assert(distinct_names(prefix)) by {
                    assert forall|a: int, b: int|
                        0 <= a < prefix.len() && 0 <= b < prefix.len() && a != b implies #[trigger] prefix[a].0@
                        != #[trigger] prefix[b].0@ by {
                        assert(new_scores.entries@[a].0@ != new_scores.entries@[b].0@);
                    }
                }
                assert(!has_name(prefix, e.0@)) by {
                    if has_name(prefix, e.0@) {
                        let j = choose|j: int| 0 <= j < prefix.len() && #[trigger] prefix[j].0@ == e.0@;
                        assert(new_scores.entries@[j].0@ != new_scores.entries@[i as int].0@);
                    }
                }
                lemma_push_entry(prefix, e);
                lemma_with_screenshot_insert(old_view, entries_view(prefix), e.0@, e.1);
            }
            push_entry_score(&mut entries, name, score);
            i = i + 1;
        }
        assert(new_scores.entries@.take(n as int) == new_scores.entries@);
        self.entries = entries;
    }

    /// The scores stored for `name`, if any.
    pub fn get(&self, name: &String) -> (r: Option<Vec<u32>>)
        ensures
            match r {
                Some(v) => self.view().contains_key(name@) && v@ == self.view()[name@],
                None => !self.view().contains_key(name@),
            },
    {
        proof {
            use_type_invariant(self);
        }
        match find_name(&self.entries, name) {
            Some(i) => {
                proof {
                    lemma_name_index(self.entries@, i as int);
                }
                let v = self.entries[i].1.clone();
                assert(v@ =~= self.entries@[i as int].1@);
                Some(v)
            },
            None => None,
        }
    }

    /// The number of names with scores; the entries list each name of the
    /// table exactly once.
    pub fn len(&self) -> (n: usize)
        ensures
            n == self.entry_count(),
            forall|i: int, j: int|
                0 <= i < self.entry_count() && 0 <= j < self.entry_count() && i != j ==> #[trigger] self.name_at(i)
                    != #[trigger] self.name_at(j),
            forall|k: Seq<char>|
                #[trigger] self.view().contains_key(k) <==> exists|i: int|
                    0 <= i < self.entry_count() && #[trigger] self.name_at(i) == k,
    {
        proof {
            use_type_invariant(self);
            assert forall|k: Seq<char>| #[trigger] self.view().contains_key(k) <==> exists|i: int|
                0 <= i < self.entry_count() && #[trigger] self.name_at(i) == k by {
                if self.view().contains_key(k) {
                    let i = choose|i: int| 0 <= i < self.entries@.len() && #[trigger] self.entries@[i].0@ == k;
                    assert(self.name_at(i) == k);
                }
                if exists|i: int| 0 <= i < self.entry_count() && #[trigger] self.name_at(i) == k {
                    let i = choose|i: int| 0 <= i < self.entry_count() && #[trigger] self.name_at(i) == k;
                    assert(self.entries@[i].0@ == k);
                    assert(has_name(self.entries@, k));
                }
            }
        }
        self.entries.len()
    }

    /// The name and scores of entry `i`; the entries list each name once.
    pub fn entry(&self, i: usize) -> (e: (String, Vec<u32>))
        requires
            i < self.entry_count(),
        ensures
            e.0@ == self.name_at(i as int),
            self.view().contains_key(e.0@),
            self.view()[e.0@] == e.1@,
    {
        proof {
            use_type_invariant(self);
            lemma_name_index(self.entries@, i as int);
        }
        let v = self.entries[i].1.clone();
        assert(v@ =~= self.entries@[i as int].1@);
        (self.entries[i].0.clone(), v)
    }

    /// The name of entry `i`.
    pub closed spec fn name_at(&self, i: int) -> Seq<char> {
        self.entries@[i].0@
    }

}

/// The table `scores` with the scores of each screenshot added in turn.
pub fn combine_scores(scores: ScoreTable, new_scores: &Vec<ScoreMap>) -> (t: ScoreTable)
    ensures
        t.view() == with_screenshots(scores.view(), new_scores@.map_values(|m: ScoreMap| m.view())),
{
    let mut acc = scores;
    let mut i: usize = 0;
    let ghost views = new_scores@.map_values(|m: ScoreMap| m.view());
    assert(views.take(0) == Seq::<Map<Seq<char>, u32>>::empty());
    while i < new_scores.len()
        invariant
            i <= new_scores.len(),
            views == new_scores@.map_values(|m: ScoreMap| m.view()),
            acc.view() == with_screenshots(scores.view(), views.take(i as int)),
        decreases new_scores.len() - i,
    {
        acc.add_scores(&new_scores[i]);
        assert(views.take(i + 1).drop_last() == views.take(i as int));
        i = i + 1;
    }
    assert(views.take(new_scores.len() as int) == views);
    acc
}

/// Adding a screenshot's scores keeps every score stored before: each name's
/// earlier scores come first, unchanged.
pub proof fn law_scores_kept(t: Map<Seq<char>, Seq<u32>>, m: Map<Seq<char>, u32>)
    ensures
        forall|k: Seq<char>|
            #[trigger] t.contains_key(k) ==> with_screenshot(t, m).contains_key(k)
                && with_screenshot(t, m)[k].take(t[k].len() as int) == t[k],
{
    assert forall|k: Seq<char>| #[trigger] t.contains_key(k) implies with_screenshot(t, m).contains_key(k)
        && with_screenshot(t, m)[k].take(t[k].len() as int) == t[k] by {
        if m.contains_key(k) {
            assert(t[k].push(m[k]).take(t[k].len() as int) =~= t[k]);
        } else {
            assert(t[k].take(t[k].len() as int) =~= t[k]);
        }
    }
}

/// Adding a screenshot's scores adds exactly one score for each name read
/// there, and none for any other name.
pub proof fn law_one_score_per_name(t: Map<Seq<char>, Seq<u32>>, m: Map<Seq<char>, u32>)
    ensures
        forall|k: Seq<char>|
            #[trigger] m.contains_key(k) ==> scores_of(with_screenshot(t, m), k).len() == scores_of(t, k).len() + 1
                && scores_of(with_screenshot(t, m), k).last() == m[k],
        forall|k: Seq<char>|
            !m.contains_key(k) ==> #[trigger] scores_of(with_screenshot(t, m), k) == scores_of(t, k),
{
}

} // verus!
