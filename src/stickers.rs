//! A track's stickers: name/value pairs with distinct names, seen as a map.
use vstd::prelude::*;

verus! {

/// The map that a list of name/value pairs stands for; a later pair wins over
/// an earlier one with the same name.
pub open spec fn map_of(s: Seq<(String, String)>) -> Map<Seq<char>, Seq<char>>
    decreases s.len(),
{
    if s.len() == 0 {
        Map::empty()
    } else {
        map_of(s.drop_last()).insert(s.last().0@, s.last().1@)
    }
}

/// No two pairs share a name.
pub open spec fn distinct_names(s: Seq<(String, String)>) -> bool {
    forall|i: int, j: int|
        0 <= i < s.len() && 0 <= j < s.len() && i != j ==> #[trigger] s[i].0@ != #[trigger] s[j].0@
}

pub proof fn lemma_map_of_dom(s: Seq<(String, String)>, k: Seq<char>)
    ensures
        map_of(s).contains_key(k) <==> exists|j: int| 0 <= j < s.len() && #[trigger] s[j].0@ == k,
    decreases s.len(),
{
    if s.len() > 0 {
        lemma_map_of_dom(s.drop_last(), k);
        if map_of(s.drop_last()).contains_key(k) {
            let j = choose|j: int| 0 <= j < s.drop_last().len() && #[trigger] s.drop_last()[j].0@ == k;
            assert(s[j].0@ == k);
        }
        if exists|j: int| 0 <= j < s.len() && #[trigger] s[j].0@ == k {
            let j = choose|j: int| 0 <= j < s.len() && #[trigger] s[j].0@ == k;
            if j < s.len() - 1 {
                assert(s.drop_last()[j].0@ == k);
            }
        }
    }
}

pub proof fn lemma_map_of_at(s: Seq<(String, String)>, i: int)
    requires
        distinct_names(s),
        0 <= i < s.len(),
    ensures
        map_of(s).contains_key(s[i].0@),
        map_of(s)[s[i].0@] == s[i].1@,
    decreases s.len(),
{
    if i < s.len() - 1 {
        let d = s.drop_last();
        assert(d[i] == s[i]);
        assert(distinct_names(d)) by {
            assert forall|a: int, b: int|
                0 <= a < d.len() && 0 <= b < d.len() && a != b implies #[trigger] d[a].0@
                != #[trigger] d[b].0@ by {
                assert(d[a] == s[a] && d[b] == s[b]);
            }
        }
        lemma_map_of_at(d, i);
        assert(s[i].0@ != s.last().0@);
    }
}

pub proof fn lemma_map_of_update(s: Seq<(String, String)>, i: int, p: (String, String))
    requires
        distinct_names(s),
        0 <= i < s.len(),
        p.0@ == s[i].0@,
    ensures
        map_of(s.update(i, p)) == map_of(s).insert(p.0@, p.1@),
        distinct_names(s.update(i, p)),
    decreases s.len(),
{
    let u = s.update(i, p);
    assert(distinct_names(u)) by {
        assert forall|a: int, b: int|
            0 <= a < u.len() && 0 <= b < u.len() && a != b implies #[trigger] u[a].0@
            != #[trigger] u[b].0@ by {
            assert(u[a].0@ == s[a].0@ && u[b].0@ == s[b].0@);
        }
    }
    let d = s.drop_last();
    assert(distinct_names(d)) by {
        assert forall|a: int, b: int|
            0 <= a < d.len() && 0 <= b < d.len() && a != b implies #[trigger] d[a].0@
            != #[trigger] d[b].0@ by {
            assert(d[a] == s[a] && d[b] == s[b]);
        }
    }
    if i == s.len() - 1 {
        assert(u.drop_last() =~= d);
        assert(map_of(u) =~= map_of(s).insert(p.0@, p.1@));
    } else {
        assert(u.drop_last() =~= d.update(i, p));
        lemma_map_of_update(d, i, p);
        assert(s.last().0@ != p.0@);
        assert(map_of(u) =~= map_of(s).insert(p.0@, p.1@));
    }
}

/// What must be written to the store to turn `before` into `after`: each
/// sticker of `after` that `before` lacks or holds with another value.
pub open spec fn changes(before: Map<Seq<char>, Seq<char>>, after: Map<Seq<char>, Seq<char>>) -> Map<
    Seq<char>,
    Seq<char>,
> {
    Map::new(
        |k: Seq<char>| after.contains_key(k) && !(before.contains_key(k) && before[k] == after[k]),
        |k: Seq<char>| after[k],
    )
}

/// The stickers of one track: each name at most once.
pub struct Stickers {
    entries: Vec<(String, String)>,
}

impl View for Stickers {
    type V = Map<Seq<char>, Seq<char>>;

    closed spec fn view(&self) -> Map<Seq<char>, Seq<char>> {
        map_of(self.entries@)
    }
}

impl Stickers {
    /// Each name is held once.
    pub closed spec fn wf(&self) -> bool {
        distinct_names(self.entries@)
    }

    /// No stickers at all.
    pub fn new() -> (r: Stickers)
        ensures
            r.wf(),
            r@ == Map::<Seq<char>, Seq<char>>::empty(),
    {
        Stickers { entries: Vec::new() }
    }

    /// Where the sticker `name` stands in the list, if it is there.
    fn position(&self, name: &String) -> (r: Option<usize>)
        requires
            self.wf(),
        ensures
            r.is_none() <==> !self@.contains_key(name@),
            r.is_some() ==> r.unwrap() < self.entries@.len() && self.entries@[r.unwrap() as int].0@
                == name@,
    {
        proof {
            lemma_map_of_dom(self.entries@, name@);
        }
        let mut i: usize = 0;
        while i < self.entries.len()
            invariant
                i <= self.entries@.len(),
                forall|j: int| 0 <= j < i ==> #[trigger] self.entries@[j].0@ != name@,
            decreases self.entries@.len() - i,
        {
            if self.entries[i].0 == *name {
                proof {
                    lemma_map_of_dom(self.entries@, name@);
                    assert(self.entries@[i as int].0@ == name@);
                }
                return Some(i);
            }
            i = i + 1;
        }
        None
    }

    /// The value of the sticker `name`, if the track has one.
    pub fn get(&self, name: &String) -> (r: Option<&String>)
        requires
            self.wf(),
        ensures
            r.is_some() == self@.contains_key(name@),
            r.is_some() ==> r.unwrap()@ == self@[name@],
    {
        match self.position(name) {
            Some(i) => {
                proof {
                    lemma_map_of_at(self.entries@, i as int);
                }
                Some(&self.entries[i].1)
            },
            None => None,
        }
    }

    /// Whether the track has a sticker `name`.
    pub fn contains_key(&self, name: &String) -> (r: bool)
        requires
            self.wf(),
        ensures
            r == self@.contains_key(name@),
    {
        self.position(name).is_some()
    }

    /// Sets the sticker `name` to `value`, in place of any earlier value.
    pub fn insert(&mut self, name: String, value: String)
        requires
            old(self).wf(),
        ensures
            final(self).wf(),
            final(self)@ == old(self)@.insert(name@, value@),
    {
        match self.position(&name) {
            Some(i) => {
                proof {
                    lemma_map_of_update(self.entries@, i as int, (name, value));
                }
                self.entries.set(i, (name, value));
            },
            None => {
                proof {
                    lemma_map_of_dom(self.entries@, name@);
                }
                let ghost before = self.entries@;
                self.entries.push((name, value));
                assert(self.entries@.drop_last() =~= before);
                assert(distinct_names(self.entries@)) by {
                    assert forall|a: int, b: int|
                        0 <= a < self.entries@.len() && 0 <= b < self.entries@.len() && a != b
                        implies #[trigger] self.entries@[a].0@ != #[trigger] self.entries@[b].0@ by {
                        if a < before.len() && b < before.len() {
                            assert(self.entries@[a] == before[a] && self.entries@[b] == before[b]);
                        } else if a < before.len() {
                            assert(self.entries@[a] == before[a]);
                        } else {
                            assert(self.entries@[b] == before[b]);
                        }
                    }
                }
            },
        }
    }

    /// A copy of these stickers.
    pub fn snapshot(&self) -> (r: Stickers)
        requires
            self.wf(),
        ensures
            r.wf(),
            r@ == self@,
    {
        let mut entries: Vec<(String, String)> = Vec::new();
        let mut i: usize = 0;
        while i < self.entries.len()
            invariant
                i <= self.entries@.len(),
                entries@ == self.entries@.take(i as int),
            decreases self.entries@.len() - i,
        {
            let name = self.entries[i].0.clone();
            let value = self.entries[i].1.clone();
            entries.push((name, value));
            i = i + 1;
            assert(entries@ =~= self.entries@.take(i as int));
        }
        assert(entries@ =~= self.entries@);
        Stickers { entries }
    }

    /// The stickers that differ from `before`: those that `before` lacks or
    /// holds with another value.
    pub fn changed_from(&self, before: &Stickers) -> (r: Stickers)
        requires
            self.wf(),
            before.wf(),
        ensures
            r.wf(),
            r@ == changes(before@, self@),
    {
        let mut entries: Vec<(String, String)> = Vec::new();
        let mut i: usize = 0;
        assert(map_of(entries@) =~= changes(before@, map_of(self.entries@.take(0))));
        while i < self.entries.len()
            invariant
                i <= self.entries@.len(),
                self.wf(),
                before.wf(),
                distinct_names(entries@),
                map_of(entries@) == changes(before@, map_of(self.entries@.take(i as int))),
            decreases self.entries@.len() - i,
        {
            let ghost seen = self.entries@.take(i as int);
            let ghost next = self.entries@.take(i as int + 1);
            assert(next.drop_last() =~= seen);
            let ghost k = self.entries@[i as int].0@;
            proof {
                lemma_map_of_dom(seen, k);
                lemma_map_of_dom(entries@, k);
                if exists|j: int| 0 <= j < seen.len() && #[trigger] seen[j].0@ == k {
                    let j = choose|j: int| 0 <= j < seen.len() && #[trigger] seen[j].0@ == k;
                    assert(self.entries@[j].0@ == k);
                }
            }
            let unchanged = match before.get(&self.entries[i].0) {
                Some(v) => *v == self.entries[i].1,
                None => false,
            };
            if !unchanged {
                let ghost old_entries = entries@;
                let name = self.entries[i].0.clone();
                let value = self.entries[i].1.clone();
                entries.push((name, value));
                assert(entries@.drop_last() =~= old_entries);
                assert(distinct_names(entries@)) by {
                    assert forall|a: int, b: int|
                        0 <= a < entries@.len() && 0 <= b < entries@.len() && a != b
                        implies #[trigger] entries@[a].0@ != #[trigger] entries@[b].0@ by {
                        if a < old_entries.len() {
                            assert(entries@[a] == old_entries[a]);
                        }
                        if b < old_entries.len() {
                            assert(entries@[b] == old_entries[b]);
                        }
                    }
                }
            }
            i = i + 1;
            assert(map_of(entries@) =~= changes(before@, map_of(self.entries@.take(i as int))));
        }
        assert(self.entries@.take(i as int) =~= self.entries@);
        Stickers { entries }
    }

    /// The stickers as name/value pairs, each name once.
    pub fn pairs(&self) -> (r: &Vec<(String, String)>)
        requires
            self.wf(),
        ensures
            map_of(r@) == self@,
            distinct_names(r@),
    {
        &self.entries
    }
}

} // verus!
