use vstd::arithmetic::div_mod::{
    lemma_add_mod_noop_right, lemma_mod_self_0, lemma_small_mod, lemma_sub_mod_noop_right,
};
use vstd::prelude::*;
use vstd::set_lib::{lemma_int_range, lemma_len_subset, set_int_range};

verus! {

/// The score that the fuzzy matcher gives `target` for `query`, or `None` when the
/// query cannot be matched as a whole, in order, inside the target.
pub uninterp spec fn fuzzy_score(query: Seq<char>, target: Seq<char>) -> Option<isize>;

/// Relies on `sublime_fuzzy::best_match` (and `Match::score`): the score of the best
/// case-insensitive subsequence match of `query` in `target`, which depends on the two
/// strings alone; `None` when either string is empty or no full match exists.
#[verifier::external_body]
fn best_match_score(query: &str, target: &str) -> (r: Option<isize>)
    ensures
        r == fuzzy_score(query@, target@),
        query@.len() == 0 || target@.len() == 0 ==> r is None,
{
    sublime_fuzzy::best_match(query, target).map(|m| m.score())
}

/// The score recorded at index `i` (meaningful only where one was recorded).
pub open spec fn score_at(scores: Seq<Option<isize>>, i: usize) -> isize {
    match scores[i as int] {
        Some(s) => s,
        None => 0,
    }
}

/// Entry `i` comes before entry `j` in a ranking: a higher score first, and among
/// equal scores the earlier entry first.
pub open spec fn ranks_before(scores: Seq<Option<isize>>, i: usize, j: usize) -> bool {
    score_at(scores, i) > score_at(scores, j) || (score_at(scores, i) == score_at(scores, j)
        && i < j)
}

/// `order` lists exactly the indices below `n` that have a score, by descending score,
/// ties in index order.
pub open spec fn ranks_prefix(scores: Seq<Option<isize>>, order: Seq<usize>, n: int) -> bool {
    &&& forall|k: int|
        0 <= k < order.len() ==> (#[trigger] order[k] as int) < n && scores[order[k] as int] is Some
    &&& forall|i: int| 0 <= i < n && (#[trigger] scores[i]) is Some ==> order.contains(i as usize)
    &&& forall|j: int, k: int|
        0 <= j < k < order.len() ==> ranks_before(scores, #[trigger] order[j], #[trigger] order[k])
}

/// `order` lists exactly the indices that have a score, by descending score, ties in
/// index order.
pub open spec fn is_ranking(scores: Seq<Option<isize>>, order: Seq<usize>) -> bool {
    ranks_prefix(scores, order, scores.len() as int)
}

/// `p` is where an entry of score `s` goes in `order`: after every entry scored at
/// least `s`, before the rest.
pub open spec fn is_insert_position(scores: Seq<Option<isize>>, order: Seq<usize>, s: isize, p: int) -> bool {
    &&& 0 <= p <= order.len()
    &&& forall|k: int| 0 <= k < p ==> score_at(scores, #[trigger] order[k]) >= s
    &&& p < order.len() ==> score_at(scores, order[p]) < s
}

proof fn lemma_insert_position_exists(scores: Seq<Option<isize>>, order: Seq<usize>, s: isize) -> (p: int)
    ensures
        is_insert_position(scores, order, s, p),
    decreases order.len(),
{
    if order.len() == 0 {
        0
    } else {
        let front = order.drop_last();
        let q = lemma_insert_position_exists(scores, front, s);
        assert forall|k: int| 0 <= k < q implies score_at(scores, #[trigger] order[k]) >= s by {
            assert(order[k] == front[k]);
        }
        if q < front.len() {
            assert(order[q] == front[q]);
            q
        } else if score_at(scores, order.last()) >= s {
            order.len() as int
        } else {
            q
        }
    }
}

/// Adding entry `n`, of score `s`, at its insert position extends a ranking of the
/// indices below `n` to one of the indices below `n + 1`.
proof fn lemma_insert_step(scores: Seq<Option<isize>>, order: Seq<usize>, n: int, s: isize, p: int)
    requires
        ranks_prefix(scores, order, n),
        0 <= n < scores.len(),
        n < usize::MAX,
        scores[n] == Some(s),
        is_insert_position(scores, order, s, p),
    ensures
        ranks_prefix(scores, order.insert(p, n as usize), n + 1),
{
    let next = order.insert(p, n as usize);
    assert forall|m: int| 0 <= m < n + 1 && (#[trigger] scores[m]) is Some implies next.contains(m as usize) by {
        if m < n {
            let k0 = choose|k: int| 0 <= k < order.len() && order[k] == m as usize;
            if k0 < p {
                assert(next[k0] == m as usize);
            } else {
                assert(next[k0 + 1] == m as usize);
            }
        } else {
            assert(next[p] == n as usize);
        }
    }
    assert forall|j: int, k: int| 0 <= j < k < next.len() implies ranks_before(scores, #[trigger] next[j], #[trigger] next[k]) by {
        if k < p {
            assert(next[j] == order[j] && next[k] == order[k]);
        } else if k == p {
            assert(next[j] == order[j]);
        } else if j > p {
            assert(next[j] == order[j - 1] && next[k] == order[k - 1]);
        } else if j == p {
            assert(next[k] == order[k - 1]);
            if k - 1 > p {
                assert(ranks_before(scores, order[p], order[k - 1]));
            }
        } else {
            assert(next[j] == order[j] && next[k] == order[k - 1]);
        }
    }
}

proof fn lemma_ranks_prefix_exists(scores: Seq<Option<isize>>, n: int)
    requires
        0 <= n <= scores.len(),
        scores.len() <= usize::MAX,
    ensures
        exists|o: Seq<usize>| #[trigger] ranks_prefix(scores, o, n),
    decreases n,
{
    if n == 0 {
        assert(ranks_prefix(scores, Seq::<usize>::empty(), 0));
    } else {
        lemma_ranks_prefix_exists(scores, n - 1);
        let o = choose|o: Seq<usize>| #[trigger] ranks_prefix(scores, o, n - 1);
        match scores[n - 1] {
            Some(s) => {
                let p = lemma_insert_position_exists(scores, o, s);
                lemma_insert_step(scores, o, n - 1, s, p);
            },
            None => {
                assert(ranks_prefix(scores, o, n));
            },
        }
    }
}

/// Every set of scores has a ranking.
pub proof fn lemma_ranking_exists(scores: Seq<Option<isize>>)
    requires
        scores.len() <= usize::MAX,
    ensures
        exists|o: Seq<usize>| #[trigger] is_ranking(scores, o),
{
    lemma_ranks_prefix_exists(scores, scores.len() as int);
    let o = choose|o: Seq<usize>| #[trigger] ranks_prefix(scores, o, scores.len() as int);
    assert(is_ranking(scores, o));
}

/// Relative to one set of scores, the ranking is unique.
pub proof fn lemma_ranking_unique(scores: Seq<Option<isize>>, a: Seq<usize>, b: Seq<usize>)
    requires
        is_ranking(scores, a),
        is_ranking(scores, b),
    ensures
        a == b,
{
    lemma_sorted_unique(scores, a, b);
}

proof fn lemma_sorted_unique(scores: Seq<Option<isize>>, a: Seq<usize>, b: Seq<usize>)
    requires
        forall|j: int, k: int| 0 <= j < k < a.len() ==> ranks_before(scores, #[trigger] a[j], #[trigger] a[k]),
        forall|j: int, k: int| 0 <= j < k < b.len() ==> ranks_before(scores, #[trigger] b[j], #[trigger] b[k]),
        forall|x: usize| a.contains(x) <==> b.contains(x),
    ensures
        a == b,
    decreases a.len(),
{
    if a.len() == 0 {
        if b.len() > 0 {
            assert(b.contains(b[0]));
        }
        assert(a =~= b);
    } else {
        assert(a.contains(a[0]));
        let kb = choose|k: int| 0 <= k < b.len() && b[k] == a[0];
        assert(b.contains(b[0]));
        let ka = choose|k: int| 0 <= k < a.len() && a[k] == b[0];
        if ka > 0 && kb > 0 {
            assert(ranks_before(scores, a[0], a[ka]));
            assert(ranks_before(scores, b[0], b[kb]));
            assert(false);
        }
        assert(a[0] == b[0]);
        let a1 = a.subrange(1, a.len() as int);
        let b1 = b.subrange(1, b.len() as int);
        assert forall|x: usize| a1.contains(x) implies b1.contains(x) by {
            let i = choose|i: int| 0 <= i < a1.len() && a1[i] == x;
            assert(a[i + 1] == x);
            assert(ranks_before(scores, a[0], a[i + 1]));
            assert(b.contains(x));
            let j = choose|j: int| 0 <= j < b.len() && b[j] == x;
            assert(j != 0);
            assert(b1[j - 1] == x);
        }
        assert forall|x: usize| b1.contains(x) implies a1.contains(x) by {
            let i = choose|i: int| 0 <= i < b1.len() && b1[i] == x;
            assert(b[i + 1] == x);
            assert(ranks_before(scores, b[0], b[i + 1]));
            assert(a.contains(x));
            let j = choose|j: int| 0 <= j < a.len() && a[j] == x;
            assert(j != 0);
            assert(a1[j - 1] == x);
        }
        assert forall|j: int, k: int| 0 <= j < k < a1.len() implies ranks_before(scores, #[trigger] a1[j], #[trigger] a1[k]) by {
            assert(a1[j] == a[j + 1] && a1[k] == a[k + 1]);
        }
        assert forall|j: int, k: int| 0 <= j < k < b1.len() implies ranks_before(scores, #[trigger] b1[j], #[trigger] b1[k]) by {
            assert(b1[j] == b[j + 1] && b1[k] == b[k + 1]);
        }
        lemma_sorted_unique(scores, a1, b1);
        assert(a =~= seq![a[0]] + a1);
        assert(b =~= seq![b[0]] + b1);
    }
}

/// The first position of `order` whose score is below `s`, or its length.
fn insert_position(scores: &Vec<Option<isize>>, order: &Vec<usize>, s: isize) -> (p: usize)
    requires
        forall|k: int| 0 <= k < order.len() ==> (#[trigger] order[k] as int) < scores.len(),
    ensures
        is_insert_position(scores@, order@, s, p as int),
{
    let mut p: usize = 0;
    while p < order.len() && scores[order[p]].unwrap_or(0) >= s
        invariant
            p <= order.len(),
            forall|k: int| 0 <= k < order.len() ==> (#[trigger] order[k] as int) < scores.len(),
            forall|k: int| 0 <= k < p ==> score_at(scores@, #[trigger] order@[k]) >= s,
        decreases order.len() - p,
    {
        p = p + 1;
    }
    p
}

/// Ranks the indices that have a score: descending score, and among equal scores the
/// index order is kept.
pub fn rank_by_score(scores: &Vec<Option<isize>>) -> (order: Vec<usize>)
    ensures
        is_ranking(scores@, order@),
{
    let mut order: Vec<usize> = Vec::new();
    let mut i: usize = 0;
    while i < scores.len()
        invariant
            i <= scores.len(),
            ranks_prefix(scores@, order@, i as int),
        decreases scores.len() - i,
    {
        if let Some(s) = scores[i] {
            let p = insert_position(scores, &order, s);
            proof {
                lemma_insert_step(scores@, order@, i as int, s, p as int);
            }
            order.insert(p, i);
        }
        i = i + 1;
    }
    order
}

/// The entries at the positions that `order` lists, in that order.
pub open spec fn pick(dirs: Seq<String>, order: Seq<usize>) -> Seq<String> {
    order.map_values(|i: usize| dirs[i as int])
}

/// The scores of every entry of `dirs` for `query`.
pub open spec fn scores_for(query: Seq<char>, dirs: Seq<String>) -> Seq<Option<isize>> {
    dirs.map_values(|d: String| fuzzy_score(query, d@))
}

/// The entries of `dirs` that have a score, ranked (see `is_ranking`; unique by
/// `lemma_ranking_unique`).
pub open spec fn ranked_view(dirs: Seq<String>, scores: Seq<Option<isize>>) -> Seq<String> {
    pick(dirs, choose|o: Seq<usize>| is_ranking(scores, o))
}

/// What the list shows for filter text `query` over the snapshot `dirs`: the snapshot
/// itself for an empty filter, else the ranked matches.
pub open spec fn filtered_view(dirs: Seq<String>, query: Seq<char>) -> Seq<String> {
    if query.len() == 0 {
        dirs
    } else {
        ranked_view(dirs, scores_for(query, dirs))
    }
}

/// A cursor fits a view of `n` entries: none exactly when the view is empty, and
/// otherwise an index into it.
pub open spec fn cursor_fits(cursor: Option<usize>, n: nat) -> bool {
    match cursor {
        None => n == 0,
        Some(i) => i < n,
    }
}

/// The cursor on a freshly built view of `n` entries.
pub open spec fn fresh_cursor(n: nat) -> Option<usize> {
    if n == 0 {
        None
    } else {
        Some(0)
    }
}

/// One step forward over `n` entries, wrapping from the last to the first.
pub open spec fn next_cursor(cursor: Option<usize>, n: nat) -> Option<usize> {
    match cursor {
        None => None,
        Some(i) => Some(((i + 1) % (n as int)) as usize),
    }
}

/// One step back over `n` entries, wrapping from the first to the last.
pub open spec fn previous_cursor(cursor: Option<usize>, n: nat) -> Option<usize> {
    match cursor {
        None => None,
        Some(i) => if i == 0 {
            Some((n - 1) as usize)
        } else {
            Some((i - 1) as usize)
        },
    }
}

/// One child of a directory as a read of that directory reports it.
pub struct ScannedEntry {
    /// The child's path, as text.
    pub path: String,
    /// The child's file name, where the path has one.
    pub name: Option<String>,
    /// Whether the child is reported to be a directory (false where its type could
    /// not be read).
    pub is_dir: bool,
}

/// A name that starts with a dot is hidden by convention.
pub open spec fn is_hidden_name(name: Seq<char>) -> bool {
    name.len() > 0 && name[0] == '.'
}

/// An entry that the listing keeps: a directory whose name is not hidden.
pub open spec fn is_visible_dir(e: ScannedEntry) -> bool {
    e.is_dir && !(e.name is Some && is_hidden_name(e.name->0@))
}

/// The paths of the visible directories among `entries`, in their order.
pub open spec fn visible_paths(entries: Seq<ScannedEntry>) -> Seq<String>
    decreases entries.len(),
{
    if entries.len() == 0 {
        seq![]
    } else {
        let rest = visible_paths(entries.drop_last());
        if is_visible_dir(entries.last()) {
            rest.push(entries.last().path)
        } else {
            rest
        }
    }
}

fn is_hidden(name: &str) -> (r: bool)
    ensures
        r == is_hidden_name(name@),
{
    name.unicode_len() > 0 && name.get_char(0) == '.'
}

/// The paths of the directories among `entries` that are not hidden, in the order in
/// which they were read.
pub fn visible_dirs(entries: &Vec<ScannedEntry>) -> (r: Vec<String>)
    ensures
        r@ == visible_paths(entries@),
{
    let mut r: Vec<String> = Vec::new();
    let mut i: usize = 0;
    while i < entries.len()
        invariant
            i <= entries.len(),
            r@ == visible_paths(entries@.subrange(0, i as int)),
        decreases entries.len() - i,
    {
        let e = &entries[i];
        let keep = match &e.name {
            Some(n) => e.is_dir && !is_hidden(n.as_str()),
            None => e.is_dir,
        };
        if keep {
            r.push(e.path.clone());
        }
        assert(entries@.subrange(0, i + 1).drop_last() =~= entries@.subrange(0, i as int));
        i = i + 1;
    }
    assert(entries@.subrange(0, entries.len() as int) =~= entries@);
    r
}

/// The child directories of one root, and the part of them that is shown under the
/// current filter, with a cursor on the shown part.
pub struct DriList {
    dirs: Vec<String>,
    items: Vec<String>,
    cursor: Option<usize>,
}

impl DriList {
    /// The snapshot: every visible child directory, in the order read.
    pub closed spec fn snapshot(&self) -> Seq<String> {
        self.dirs@
    }

    /// The entries on display.
    pub closed spec fn view(&self) -> Seq<String> {
        self.items@
    }

    /// The highlighted position in the view.
    pub closed spec fn cursor_spec(&self) -> Option<usize> {
        self.cursor
    }

    pub open spec fn wf(&self) -> bool {
        cursor_fits(self.cursor_spec(), self.view().len())
    }

    /// A list over the visible directories among `entries`, unfiltered.
    pub fn new(entries: &Vec<ScannedEntry>) -> (r: DriList)
        ensures
            r.wf(),
            r.snapshot() == visible_paths(entries@),
            r.view() == r.snapshot(),
            r.cursor_spec() == fresh_cursor(r.view().len()),
    {
        DriList::with_items(visible_dirs(entries))
    }

    /// A list over `items`, unfiltered.
    pub fn with_items(items: Vec<String>) -> (r: DriList)
        ensures
            r.wf(),
            r.snapshot() == items@,
            r.view() == items@,
            r.cursor_spec() == fresh_cursor(items@.len()),
    {
        let cursor = if items.len() == 0 {
            None
        } else {
            Some(0)
        };
        DriList { dirs: items.clone(), items, cursor }
    }

    fn set_items(&mut self, items: Vec<String>)
        ensures
            final(self).wf(),
            final(self).snapshot() == old(self).snapshot(),
            final(self).view() == items@,
            final(self).cursor_spec() == fresh_cursor(items@.len()),
    {
        self.cursor = if items.len() == 0 {
            None
        } else {
            Some(0)
        };
        self.items = items;
    }

    /// Shows the snapshot entries that have a score in `scores` (one per snapshot
    /// entry), ranked by descending score, ties in snapshot order.
    pub fn apply_scores(&mut self, scores: &Vec<Option<isize>>)
        requires
            scores@.len() == old(self).snapshot().len(),
        ensures
            final(self).wf(),
            final(self).snapshot() == old(self).snapshot(),
            final(self).view() == ranked_view(old(self).snapshot(), scores@),
            final(self).cursor_spec() == fresh_cursor(final(self).view().len()),
    {
        let order = rank_by_score(scores);
        let mut items: Vec<String> = Vec::new();
        let mut k: usize = 0;
        while k < order.len()
            invariant
                k <= order.len(),
                is_ranking(scores@, order@),
                scores@.len() == self.dirs@.len(),
                items@ == pick(self.dirs@, order@.subrange(0, k as int)),
            decreases order.len() - k,
        {
            items.push(self.dirs[order[k]].clone());
            assert(pick(self.dirs@, order@.subrange(0, k + 1)) =~= pick(self.dirs@, order@.subrange(0, k as int)).push(self.dirs@[order@[k as int] as int]));
            k = k + 1;
        }
        assert(order@.subrange(0, order.len() as int) =~= order@);
        proof {
            let o = choose|o: Seq<usize>| is_ranking(scores@, o);
            lemma_ranking_unique(scores@, order@, o);
        }
        self.set_items(items);
    }

    /// Sets the filter text: the snapshot in its own order for an empty text, else
    /// the entries that match it, best score first. The cursor goes to the first entry.
    /// Returns the new view.
    pub fn fuzzy_match(&mut self, input: &str) -> (r: Vec<String>)
        ensures
            final(self).wf(),
            final(self).snapshot() == old(self).snapshot(),
            final(self).view() == filtered_view(old(self).snapshot(), input@),
            final(self).cursor_spec() == fresh_cursor(final(self).view().len()),
            r@ == final(self).view(),
    {
        if input.unicode_len() == 0 {
            let dirs = self.dirs.clone();
            self.set_items(dirs);
            return self.items.clone();
        }
        let mut scores: Vec<Option<isize>> = Vec::new();
        let mut i: usize = 0;
        while i < self.dirs.len()
            invariant
                i <= self.dirs.len(),
                scores@ == scores_for(input@, self.dirs@.subrange(0, i as int)),
            decreases self.dirs.len() - i,
        {
            let s = best_match_score(input, self.dirs[i].as_str());
            scores.push(s);
            assert(scores_for(input@, self.dirs@.subrange(0, i + 1)) =~= scores_for(input@, self.dirs@.subrange(0, i as int)).push(fuzzy_score(input@, self.dirs@[i as int]@)));
            i = i + 1;
        }
        assert(self.dirs@.subrange(0, self.dirs.len() as int) =~= self.dirs@);
        self.apply_scores(&scores);
        self.items.clone()
    }

    /// The highlighted position, if any.
    pub fn cursor(&self) -> (r: Option<usize>)
        ensures
            r == self.cursor_spec(),
    {
        self.cursor
    }

    /// The entries on display.
    pub fn items(&self) -> (r: &Vec<String>)
        ensures
            r@ == self.view(),
    {
        &self.items
    }

    /// The highlighted entry, if any.
    pub fn selected(&self) -> (r: Option<&str>)
        requires
            self.wf(),
        ensures
            r is Some <==> self.cursor_spec() is Some,
            r is Some ==> r->0@ == self.view()[self.cursor_spec()->0 as int]@,
    {
        match self.cursor {
            Some(id) => Some(self.items[id].as_str()),
            None => None,
        }
    }

    /// Moves the cursor one entry down, from the last entry to the first; nothing
    /// happens on an empty view.
    pub fn next(&mut self)
        requires
            old(self).wf(),
        ensures
            final(self).wf(),
            final(self).snapshot() == old(self).snapshot(),
            final(self).view() == old(self).view(),
            final(self).cursor_spec() == next_cursor(old(self).cursor_spec(), old(self).view().len()),
    {
        if let Some(i) = self.cursor {
            assert(i < self.items.len());
            self.cursor = Some((i + 1) % self.items.len());
        }
    }

    /// Moves the cursor one entry up, from the first entry to the last; nothing
    /// happens on an empty view.
    pub fn previous(&mut self)
        requires
            old(self).wf(),
        ensures
            final(self).wf(),
            final(self).snapshot() == old(self).snapshot(),
            final(self).view() == old(self).view(),
            final(self).cursor_spec() == previous_cursor(old(self).cursor_spec(), old(self).view().len()),
    {
        if let Some(i) = self.cursor {
            self.cursor = Some(if i == 0 {
                self.items.len() - 1
            } else {
                i - 1
            });
        }
    }
}

/// The cursor after `k` steps forward over `n` entries.
pub open spec fn next_times(cursor: Option<usize>, n: nat, k: nat) -> Option<usize>
    decreases k,
{
    if k == 0 {
        cursor
    } else {
        next_cursor(next_times(cursor, n, (k - 1) as nat), n)
    }
}

/// The cursor after `k` steps back over `n` entries.
pub open spec fn previous_times(cursor: Option<usize>, n: nat, k: nat) -> Option<usize>
    decreases k,
{
    if k == 0 {
        cursor
    } else {
        previous_cursor(previous_times(cursor, n, (k - 1) as nat), n)
    }
}

proof fn lemma_next_times_mod(i: usize, n: nat, k: nat)
    requires
        i < n,
        n <= usize::MAX,
    ensures
        next_times(Some(i), n, k) == Some(((i + k) % (n as int)) as usize),
    decreases k,
{
    if k == 0 {
        lemma_small_mod(i as nat, n);
    } else {
        lemma_next_times_mod(i, n, (k - 1) as nat);
        lemma_add_mod_noop_right(1, i + k - 1, n as int);
    }
}

proof fn lemma_previous_times_mod(i: usize, n: nat, k: nat)
    requires
        i < n,
        n <= usize::MAX,
    ensures
        previous_times(Some(i), n, k) == Some(((i - k) % (n as int)) as usize),
    decreases k,
{
    if k == 0 {
        lemma_small_mod(i as nat, n);
    } else {
        lemma_previous_times_mod(i, n, (k - 1) as nat);
        let a = (i - (k - 1)) % (n as int);
        lemma_add_mod_noop_right(-1, i - (k - 1), n as int);
        if a == 0 {
            lemma_mod_self_0(n as int);
            lemma_add_mod_noop_right(-1, n as int, n as int);
            lemma_small_mod((n - 1) as nat, n);
        } else {
            lemma_small_mod((a - 1) as nat, n);
        }
    }
}

/// Stepping forward as many times as the view has entries brings the cursor back to
/// where it started; so does stepping back as many times.
pub proof fn lemma_cursor_cycles(cursor: Option<usize>, n: nat)
    requires
        cursor_fits(cursor, n),
        n <= usize::MAX,
    ensures
        next_times(cursor, n, n) == cursor,
        previous_times(cursor, n, n) == cursor,
{
    match cursor {
        None => {
            assert(next_times(cursor, n, 0) == cursor);
            assert(previous_times(cursor, n, 0) == cursor);
        },
        Some(i) => {
            lemma_next_times_mod(i, n, n);
            lemma_add_mod_noop_right(i as int, n as int, n as int);
            lemma_mod_self_0(n as int);
            lemma_small_mod(i as nat, n);
            lemma_previous_times_mod(i, n, n);
            lemma_sub_mod_noop_right(i as int, n as int, n as int);
        },
    }
}

/// On an empty view the cursor is none, and stepping either way leaves it none.
pub proof fn lemma_moves_on_empty_view(cursor: Option<usize>)
    requires
        cursor_fits(cursor, 0),
    ensures
        cursor is None,
        next_cursor(cursor, 0) is None,
        previous_cursor(cursor, 0) is None,
{
}

/// Clearing the filter shows the snapshot again, in its own order, whatever filter
/// was set before: `filtered` is `before` after a filter `text`, and `cleared` is
/// `filtered` after the empty filter.
pub proof fn lemma_clear_filter_restores(
    before: DriList,
    filtered: DriList,
    cleared: DriList,
    text: Seq<char>,
)
    requires
        filtered.snapshot() == before.snapshot(),
        filtered.view() == filtered_view(before.snapshot(), text),
        cleared.snapshot() == filtered.snapshot(),
        cleared.view() == filtered_view(filtered.snapshot(), Seq::empty()),
    ensures
        cleared.view() == before.snapshot(),
        cleared.snapshot() == before.snapshot(),
{
}

proof fn lemma_distinct_indices_fit(o: Seq<usize>, n: nat)
    requires
        o.no_duplicates(),
        forall|k: int| 0 <= k < o.len() ==> (#[trigger] o[k] as int) < n,
    ensures
        o.len() <= n,
{
    let ints = o.map_values(|x: usize| x as int);
    assert forall|j: int, k: int| 0 <= j < ints.len() && 0 <= k < ints.len() && j != k implies ints[j] != ints[k] by {
        assert(o[j] != o[k]);
    }
    ints.unique_seq_to_set();
    assert forall|x: int| ints.to_set().contains(x) implies set_int_range(0, n as int).contains(x) by {
        let k = choose|k: int| 0 <= k < ints.len() && ints[k] == x;
        assert(o[k] < n);
    }
    lemma_int_range(0, n as int);
    lemma_len_subset(ints.to_set(), set_int_range(0, n as int));
}

/// Under a non-empty filter the view takes its entries from distinct positions of the
/// snapshot, so it is no longer than the snapshot, and each entry matches the filter.
pub proof fn lemma_filter_selects_matches(dirs: Seq<String>, query: Seq<char>)
    requires
        query.len() > 0,
        dirs.len() <= usize::MAX,
    ensures
        filtered_view(dirs, query).len() <= dirs.len(),
        forall|k: int|
            0 <= k < filtered_view(dirs, query).len() ==> fuzzy_score(
                query,
                (#[trigger] filtered_view(dirs, query)[k])@,
            ) is Some,
        exists|o: Seq<usize>|
            #![trigger pick(dirs, o)]
            o.len() == filtered_view(dirs, query).len() && o.no_duplicates() && (forall|k: int|
                0 <= k < o.len() ==> (#[trigger] o[k] as int) < dirs.len() && filtered_view(dirs, query)[k]
                    == dirs[o[k] as int]),
{
    let scores = scores_for(query, dirs);
    lemma_ranking_exists(scores);
    let o = choose|o: Seq<usize>| #[trigger] is_ranking(scores, o);
    let view = filtered_view(dirs, query);
    assert(view == pick(dirs, o));
    assert forall|j: int, k: int| 0 <= j < o.len() && 0 <= k < o.len() && j != k implies o[j] != o[k] by {
        if j < k {
            assert(ranks_before(scores, o[j], o[k]));
        } else {
            assert(ranks_before(scores, o[k], o[j]));
        }
    }
    lemma_distinct_indices_fit(o, dirs.len());
    assert forall|k: int| 0 <= k < view.len() implies fuzzy_score(query, (#[trigger] view[k])@) is Some by {
        assert(scores[o[k] as int] is Some);
    }
    assert(pick(dirs, o) == view);
}

/// Ranking keeps the snapshot order among equal scores: under a non-empty filter the
/// view lists snapshot positions by descending score, and of two entries with the same
/// score the one earlier in the snapshot comes first.
pub proof fn lemma_filter_is_stable(dirs: Seq<String>, query: Seq<char>)
    requires
        query.len() > 0,
        dirs.len() <= usize::MAX,
    ensures
        exists|o: Seq<usize>|
            #![trigger pick(dirs, o)]
            pick(dirs, o) == filtered_view(dirs, query) && (forall|k: int|
                0 <= k < o.len() ==> (#[trigger] o[k] as int) < dirs.len()) && (forall|j: int, k: int|
                0 <= j < k < o.len() ==> score_at(scores_for(query, dirs), #[trigger] o[j]) >= score_at(
                    scores_for(query, dirs),
                    #[trigger] o[k],
                )) && (forall|j: int, k: int|
                0 <= j < k < o.len() && fuzzy_score(query, dirs[#[trigger] o[j] as int]@) == fuzzy_score(
                    query,
                    dirs[#[trigger] o[k] as int]@,
                ) ==> o[j] < o[k]),
{
    let scores = scores_for(query, dirs);
    lemma_ranking_exists(scores);
    let o = choose|o: Seq<usize>| #[trigger] is_ranking(scores, o);
    assert forall|j: int, k: int|
        0 <= j < k < o.len() && fuzzy_score(query, dirs[#[trigger] o[j] as int]@) == fuzzy_score(
            query,
            dirs[#[trigger] o[k] as int]@,
        ) implies o[j] < o[k] by {
        assert(ranks_before(scores, o[j], o[k]));
    }
    assert(pick(dirs, o) == filtered_view(dirs, query));
}

} // verus!
