//! Counter maps: remaining credits per character, with two reset policies.
use vstd::prelude::*;

verus! {

/// The credits of `c` in `m`; a character without an entry has none.
pub open spec fn credit(m: Map<char, int>, c: char) -> int {
    if m.contains_key(c) {
        m[c]
    } else {
        0
    }
}

/// `base` with one more credit for every occurrence of a character in `word`.
pub open spec fn add_counts(base: Map<char, int>, word: Seq<char>) -> Map<char, int>
    decreases word.len(),
{
    if word.len() == 0 {
        base
    } else {
        let m = add_counts(base, word.drop_last());
        m.insert(word.last(), credit(m, word.last()) + 1)
    }
}

/// The occurrence count of each distinct character of `word`.
pub open spec fn count_map(word: Seq<char>) -> Map<char, int> {
    add_counts(Map::empty(), word)
}

/// Counting `a` and then `b` gives the same credits as counting `a + b` at once.
pub proof fn lemma_add_counts_concat(m: Map<char, int>, a: Seq<char>, b: Seq<char>)
    ensures
        add_counts(add_counts(m, a), b) == add_counts(m, a + b),
    decreases b.len(),
{
    if b.len() == 0 {
        assert(a + b =~= a);
    } else {
        lemma_add_counts_concat(m, a, b.drop_last());
        assert((a + b).drop_last() =~= a + b.drop_last());
        assert((a + b).last() == b.last());
    }
}

/// No character has two entries.
pub open spec fn keys_unique(s: Seq<(char, usize)>) -> bool {
    forall|i: int, j: int|
        0 <= i < s.len() && 0 <= j < s.len() && #[trigger] s[i].0 == #[trigger] s[j].0 ==> i == j
}

/// The mapping that a list of entries with unique keys stands for.
pub open spec fn entries_map(s: Seq<(char, usize)>) -> Map<char, int> {
    Map::new(
        |k: char| exists|i: int| 0 <= i < s.len() && s[i].0 == k,
        |k: char| s[choose|i: int| 0 <= i < s.len() && s[i].0 == k].1 as int,
    )
}

proof fn lemma_entries_lookup(s: Seq<(char, usize)>, j: int)
    requires
        keys_unique(s),
        0 <= j < s.len(),
    ensures
        entries_map(s).contains_key(s[j].0),
        entries_map(s)[s[j].0] == s[j].1 as int,
{
    let k = s[j].0;
    assert(exists|i: int| 0 <= i < s.len() && s[i].0 == k);
    let i = choose|i: int| 0 <= i < s.len() && s[i].0 == k;
    assert(s[i].0 == s[j].0);
}

proof fn lemma_entries_update(s: Seq<(char, usize)>, j: int, v: usize)
    requires
        keys_unique(s),
        0 <= j < s.len(),
    ensures
        keys_unique(s.update(j, (s[j].0, v))),
        entries_map(s.update(j, (s[j].0, v))) == entries_map(s).insert(s[j].0, v as int),
{
    let t = s.update(j, (s[j].0, v));
    let goal = entries_map(s).insert(s[j].0, v as int);
    assert forall|a: int, b: int|
        0 <= a < t.len() && 0 <= b < t.len() && #[trigger] t[a].0 == #[trigger] t[b].0 implies a
        == b by {
        assert(s[a].0 == t[a].0 && s[b].0 == t[b].0);
    }
    assert forall|k: char| #[trigger] entries_map(t).contains_key(k) <==> goal.contains_key(k) by {
        if entries_map(t).contains_key(k) {
            let i = choose|i: int| 0 <= i < t.len() && t[i].0 == k;
            assert(s[i].0 == k);
        }
        if entries_map(s).contains_key(k) {
            let i = choose|i: int| 0 <= i < s.len() && s[i].0 == k;
            assert(t[i].0 == k);
        }
        if k == s[j].0 {
            assert(t[j].0 == k);
        }
    }
    assert forall|k: char| entries_map(t).contains_key(k) implies #[trigger] entries_map(t)[k]
        == goal[k] by {
        let i = choose|i: int| 0 <= i < t.len() && t[i].0 == k;
        lemma_entries_lookup(t, i);
        if i != j {
            assert(s[i] == t[i]);
            lemma_entries_lookup(s, i);
        }
    }
    assert(entries_map(t) =~= goal);
}

proof fn lemma_entries_push(s: Seq<(char, usize)>, c: char, v: usize)
    requires
        keys_unique(s),
        !entries_map(s).contains_key(c),
    ensures
        keys_unique(s.push((c, v))),
        entries_map(s.push((c, v))) == entries_map(s).insert(c, v as int),
{
    let t = s.push((c, v));
    let goal = entries_map(s).insert(c, v as int);
    assert forall|a: int, b: int|
        0 <= a < t.len() && 0 <= b < t.len() && #[trigger] t[a].0 == #[trigger] t[b].0 implies a
        == b by {
        if a < s.len() {
            assert(t[a] == s[a]);
        }
        if b < s.len() {
            assert(t[b] == s[b]);
        }
    }
    assert forall|k: char| #[trigger] entries_map(t).contains_key(k) <==> goal.contains_key(k) by {
        if entries_map(t).contains_key(k) && k != c {
            let i = choose|i: int| 0 <= i < t.len() && t[i].0 == k;
            assert(i < s.len());
            assert(s[i].0 == k);
        }
        if entries_map(s).contains_key(k) {
            let i = choose|i: int| 0 <= i < s.len() && s[i].0 == k;
            assert(t[i].0 == k);
        }
        if k == c {
            assert(t[s.len() as int].0 == k);
        }
    }
    assert forall|k: char| entries_map(t).contains_key(k) implies #[trigger] entries_map(t)[k]
        == goal[k] by {
        let i = choose|i: int| 0 <= i < t.len() && t[i].0 == k;
        lemma_entries_lookup(t, i);
        if i < s.len() {
            assert(s[i] == t[i]);
            lemma_entries_lookup(s, i);
        }
    }
    assert(entries_map(t) =~= goal);
}

/// A mapping from characters to remaining credits, held as a list of entries.
pub struct CountMap {
    entries: Vec<(char, usize)>,
}

impl CountMap {
    /// Credits per character.
    pub closed spec fn view(&self) -> Map<char, int> {
        entries_map(self.entries@)
    }

    /// The characters that have an entry, in the order the entries are held.
    pub closed spec fn keys(&self) -> Seq<char> {
        self.entries@.map_values(|e: (char, usize)| e.0)
    }

    pub closed spec fn wf(&self) -> bool {
        keys_unique(self.entries@)
    }

    /// An empty map.
    pub fn new() -> (r: CountMap)
        ensures
            r.wf(),
            r@ == Map::<char, int>::empty(),
    {
        let r = CountMap { entries: Vec::new() };
        assert(r@ =~= Map::<char, int>::empty());
        r
    }

    fn find(&self, c: char) -> (r: Option<usize>)
        requires
            self.wf(),
        ensures
            match r {
                Some(i) => i < self.entries@.len() && self.entries@[i as int].0 == c,
                None => !self@.contains_key(c),
            },
    {
        let mut i: usize = 0;
        while i < self.entries.len()
            invariant
                i <= self.entries@.len(),
                forall|j: int| 0 <= j < i ==> self.entries@[j].0 != c,
            decreases self.entries@.len() - i,
        {
            if self.entries[i].0 == c {
                return Some(i);
            }
            i = i + 1;
        }
        assert(!self@.contains_key(c)) by {
            if self@.contains_key(c) {
                let j = choose|j: int| 0 <= j < self.entries@.len() && self.entries@[j].0 == c;
                assert(self.entries@[j].0 != c);
            }
        }
        None
    }

    /// The credits of `c`.
    pub fn get(&self, c: char) -> (r: usize)
        requires
            self.wf(),
        ensures
            r == credit(self@, c),
    {
        match self.find(c) {
            Some(i) => {
                proof {
                    lemma_entries_lookup(self.entries@, i as int);
                }
                self.entries[i].1
            },
            None => 0,
        }
    }

    /// Adds one credit to `c`, creating its entry if it has none.
    pub fn add_one(&mut self, c: char)
        requires
            old(self).wf(),
            credit(old(self)@, c) < usize::MAX,
        ensures
            final(self).wf(),
            final(self)@ == old(self)@.insert(c, credit(old(self)@, c) + 1),
    {
        match self.find(c) {
            Some(i) => {
                proof {
                    lemma_entries_lookup(self.entries@, i as int);
                    lemma_entries_update(self.entries@, i as int, (self.entries@[i as int].1 + 1) as usize);
                }
                let v = self.entries[i].1;
                self.entries.set(i, (c, v + 1));
            },
            None => {
                proof {
                    lemma_entries_push(self.entries@, c, 1);
                }
                self.entries.push((c, 1));
            },
        }
    }

    /// Takes one credit from `c` when it has one; says whether it did.
    pub fn take_credit(&mut self, c: char) -> (r: bool)
        requires
            old(self).wf(),
        ensures
            final(self).wf(),
            final(self).keys() == old(self).keys(),
            r == (credit(old(self)@, c) > 0),
            final(self)@ == if r {
                old(self)@.insert(c, credit(old(self)@, c) - 1)
            } else {
                old(self)@
            },
    {
        match self.find(c) {
            Some(i) => {
                let v = self.entries[i].1;
                proof {
                    lemma_entries_lookup(self.entries@, i as int);
                }
                if v > 0 {
                    proof {
                        lemma_entries_update(self.entries@, i as int, (v - 1) as usize);
                    }
                    self.entries.set(i, (c, v - 1));
                    assert(self.keys() =~= old(self).keys());
                    true
                } else {
                    false
                }
            },
            None => false,
        }
    }

    /// Removes every entry.
    pub fn clear(&mut self)
        ensures
            final(self).wf(),
            final(self)@ == Map::<char, int>::empty(),
    {
        self.entries.clear();
        assert(self@ =~= Map::<char, int>::empty());
    }

    /// A copy with the same entries in the same order.
    pub fn duplicate(&self) -> (r: CountMap)
        requires
            self.wf(),
        ensures
            r.wf(),
            r@ == self@,
            r.keys() == self.keys(),
    {
        let mut entries: Vec<(char, usize)> = Vec::new();
        let mut i: usize = 0;
        while i < self.entries.len()
            invariant
                i <= self.entries@.len(),
                entries@ == self.entries@.take(i as int),
            decreases self.entries@.len() - i,
        {
            entries.push(self.entries[i]);
            i = i + 1;
            assert(entries@ =~= self.entries@.take(i as int));
        }
        assert(entries@ =~= self.entries@);
        CountMap { entries }
    }
}


/// A counter map together with the state that its reset restores.
pub trait ResettableMap: Sized {
    /// The credits held now.
    spec fn counts(&self) -> Map<char, int>;

    /// The credits that `reset` restores.
    spec fn baseline(&self) -> Map<char, int>;

    spec fn wf(&self) -> bool;

    /// Takes one credit from `c` when it has one; says whether it did.
    fn take_credit(&mut self, c: char) -> (r: bool)
        requires
            old(self).wf(),
        ensures
            final(self).wf(),
            final(self).baseline() == old(self).baseline(),
            r == (credit(old(self).counts(), c) > 0),
            final(self).counts() == if r {
                old(self).counts().insert(c, credit(old(self).counts(), c) - 1)
            } else {
                old(self).counts()
            },
    ;

    /// Restores the credits to the baseline.
    fn reset(&mut self)
        requires
            old(self).wf(),
        ensures
            final(self).wf(),
            final(self).baseline() == old(self).baseline(),
            final(self).counts() == old(self).baseline(),
    ;
}

/// `after` is what a reset makes of `before`: the baseline is kept and the
/// credits are set to it.
pub open spec fn reset_post<R: ResettableMap>(before: &R, after: &R) -> bool {
    &&& after.wf()
    &&& after.baseline() == before.baseline()
    &&& after.counts() == before.baseline()
}

/// Resetting twice in a row leaves the same credits and baseline as resetting once.
pub proof fn lemma_reset_idempotent<R: ResettableMap>(start: &R, once: &R, twice: &R)
    requires
        start.wf(),
        reset_post(start, once),
        reset_post(once, twice),
    ensures
        twice.counts() == once.counts(),
        twice.baseline() == once.baseline(),
{
}

/// A counter map whose reset empties it: it is refilled before each use.
pub struct ResetToEmpty {
    map: CountMap,
}

impl ResetToEmpty {
    /// The underlying map.
    pub closed spec fn map(&self) -> CountMap {
        self.map
    }

    pub proof fn lemma_view(&self)
        ensures
            self.counts() == self.map()@,
            self.wf() == self.map().wf(),
            self.baseline() == Map::<char, int>::empty(),
    {
    }
    /// An empty map.
    pub fn new() -> (r: ResetToEmpty)
        ensures
            r.wf(),
            r.counts() == Map::<char, int>::empty(),
    {
        ResetToEmpty { map: CountMap::new() }
    }

    /// The underlying map.
    pub fn get(&self) -> (r: &CountMap)
        ensures
            *r == self.map(),
    {
        &self.map
    }

    /// Mutable access to the underlying map.
    pub fn get_mut(&mut self) -> (r: &mut CountMap)
        ensures
            *r == old(self).map(),
            final(self).map() == *final(r),
    {
        &mut self.map
    }

}

impl ResettableMap for ResetToEmpty {
    closed spec fn counts(&self) -> Map<char, int> {
        self.map@
    }

    closed spec fn baseline(&self) -> Map<char, int> {
        Map::empty()
    }

    closed spec fn wf(&self) -> bool {
        self.map.wf()
    }

    fn take_credit(&mut self, c: char) -> (r: bool) {
        self.map.take_credit(c)
    }

    fn reset(&mut self) {
        self.map.clear();
    }
}

/// A counter map whose reset restores the credits it was made with.
pub struct ResetToOriginal {
    original: CountMap,
    map: CountMap,
}

impl ResetToOriginal {
    /// A map whose credits and baseline are both `original`.
    pub fn new(original: CountMap) -> (r: ResetToOriginal)
        requires
            original.wf(),
        ensures
            r.wf(),
            r.counts() == original@,
            r.baseline() == original@,
    {
        let map = original.duplicate();
        ResetToOriginal { original, map }
    }

    /// The map of current credits.
    pub fn get(&self) -> (r: &CountMap)
        requires
            self.wf(),
        ensures
            r.wf(),
            r@ == self.counts(),
    {
        &self.map
    }
}

impl ResettableMap for ResetToOriginal {
    closed spec fn counts(&self) -> Map<char, int> {
        self.map@
    }

    closed spec fn baseline(&self) -> Map<char, int> {
        self.original@
    }

    /// Only values change: the entries keep the baseline's keys, in its order.
    closed spec fn wf(&self) -> bool {
        &&& self.original.wf()
        &&& self.map.wf()
        &&& self.map.keys() == self.original.keys()
    }

    fn take_credit(&mut self, c: char) -> (r: bool) {
        self.map.take_credit(c)
    }

    fn reset(&mut self) {
        let n = self.original.entries.len();
        assert(self.map.entries@.len() == self.map.keys().len());
        assert forall|j: int| 0 <= j < n implies self.map.entries@[j].0
            == self.original.entries@[j].0 by {
            assert(self.map.keys()[j] == self.original.keys()[j]);
        }
        let mut i: usize = 0;
        while i < n
            invariant
                n == self.original.entries@.len(),
                n == self.map.entries@.len(),
                self.original == old(self).original,
                0 <= i <= n,
                forall|j: int| 0 <= j < i ==> self.map.entries@[j] == self.original.entries@[j],
                forall|j: int|
                    0 <= j < n ==> self.map.entries@[j].0 == self.original.entries@[j].0,
            decreases n - i,
        {
            let e = self.original.entries[i];
            self.map.entries.set(i, e);
            i = i + 1;
        }
        assert(self.map.entries@ =~= self.original.entries@);
        assert(self.map.keys() =~= self.original.keys());
    }
}

} // verus!
