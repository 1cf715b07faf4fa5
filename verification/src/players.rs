//! The roster: players keyed by identifier and kept in identifier order,
//! and the count of open connections per player.
use vstd::prelude::*;
use crate::model::{Player, PlayerView};
use crate::text::{chars_lt, chars_of, same_chars, text_lt, lemma_text_lt_irreflexive,
    lemma_text_lt_total, lemma_text_lt_transitive};

verus! {

/// Identifiers strictly increase along the sequence (so none occurs twice).
pub open spec fn ids_sorted(s: Seq<PlayerView>) -> bool {
    forall|i: int, j: int| 0 <= i < j < s.len() ==> text_lt(#[trigger] s[i].id, #[trigger] s[j].id)
}

/// The position of the player with identifier `id`, if there is one.
pub open spec fn index_of(s: Seq<PlayerView>, id: Seq<char>) -> Option<int> {
    if exists|i: int| 0 <= i < s.len() && s[i].id == id {
        Some(choose|i: int| 0 <= i < s.len() && s[i].id == id)
    } else {
        None
    }
}

/// The number of leading entries whose identifier orders before `id`:
/// where a player with that identifier stands or would be inserted.
pub open spec fn lower_bound(s: Seq<PlayerView>, id: Seq<char>) -> nat
    decreases s.len(),
{
    if s.len() == 0 {
        0
    } else if text_lt(s.last().id, id) {
        s.len()
    } else {
        lower_bound(s.drop_last(), id)
    }
}

/// The roster after `p` is stored under its identifier: it replaces the
/// player with the same identifier, or is inserted in identifier order.
pub open spec fn stored(s: Seq<PlayerView>, p: PlayerView) -> Seq<PlayerView> {
    let k = lower_bound(s, p.id) as int;
    if k < s.len() && s[k].id == p.id {
        s.update(k, p)
    } else {
        s.insert(k, p)
    }
}

proof fn lemma_lower_bound(s: Seq<PlayerView>, id: Seq<char>)
    requires
        ids_sorted(s),
    ensures
        lower_bound(s, id) <= s.len(),
        forall|i: int| 0 <= i < lower_bound(s, id) ==> text_lt(#[trigger] s[i].id, id),
        forall|i: int| lower_bound(s, id) <= i < s.len() ==> !text_lt(#[trigger] s[i].id, id),
    decreases s.len(),
{
    if s.len() > 0 {
        if text_lt(s.last().id, id) {
            assert forall|i: int| 0 <= i < s.len() implies text_lt(#[trigger] s[i].id, id) by {
                if i < s.len() - 1 {
                    lemma_text_lt_transitive(s[i].id, s.last().id, id);
                }
            }
        } else {
            let t = s.drop_last();
            assert(ids_sorted(t));
            lemma_lower_bound(t, id);
            assert forall|i: int| lower_bound(s, id) <= i < s.len() implies !text_lt(
                #[trigger] s[i].id,
                id,
            ) by {
                if i < s.len() - 1 {
                    assert(t[i] == s[i]);
                }
            }
            assert forall|i: int| 0 <= i < lower_bound(s, id) implies text_lt(
                #[trigger] s[i].id,
                id,
            ) by {
                assert(t[i] == s[i]);
            }
        }
    }
}

/// Storing a player keeps the identifiers in order, and afterwards the
/// player stands under its identifier while every other entry is kept.
pub proof fn lemma_stored(s: Seq<PlayerView>, p: PlayerView)
    requires
        ids_sorted(s),
    ensures
        ids_sorted(stored(s, p)),
        index_of(stored(s, p), p.id) is Some,
        stored(s, p)[index_of(stored(s, p), p.id)->0] == p,
        forall|i: int| 0 <= i < s.len() && s[i].id != p.id ==> stored(s, p).contains(s[i]),
        forall|q: PlayerView| stored(s, p).contains(q) ==> q == p || s.contains(q),
        stored(s, p).len() == s.len() || stored(s, p).len() == s.len() + 1,
{
    lemma_lower_bound(s, p.id);
    let k = lower_bound(s, p.id) as int;
    let r = stored(s, p);
    if k < s.len() && s[k].id == p.id {
        assert forall|i: int, j: int| 0 <= i < j < r.len() implies text_lt(
            #[trigger] r[i].id,
            #[trigger] r[j].id,
        ) by {
            assert(text_lt(s[i].id, s[j].id));
        }
        assert(r[k].id == p.id);
        assert forall|i: int| 0 <= i < s.len() && s[i].id != p.id implies r.contains(s[i]) by {
            assert(r[i] == s[i]);
        }
        assert forall|q: PlayerView| r.contains(q) implies q == p || s.contains(q) by {
            let i = choose|i: int| 0 <= i < r.len() && r[i] == q;
            if i != k {
                assert(s[i] == q);
            }
        }
    } else {
        assert forall|m: int| k <= m < s.len() implies text_lt(p.id, #[trigger] s[m].id) by {
            lemma_text_lt_total(s[k].id, p.id);
            if m > k {
                assert(text_lt(s[k].id, s[m].id));
                lemma_text_lt_transitive(p.id, s[k].id, s[m].id);
            }
        }
        assert forall|i: int, j: int| 0 <= i < j < r.len() implies text_lt(
            #[trigger] r[i].id,
            #[trigger] r[j].id,
        ) by {
            if j < k {
                assert(text_lt(s[i].id, s[j].id));
            } else if j == k {
                assert(text_lt(s[i].id, p.id));
            } else if i < k {
                assert(text_lt(s[i].id, p.id));
                assert(text_lt(p.id, s[j - 1].id));
                lemma_text_lt_transitive(s[i].id, p.id, s[j - 1].id);
            } else if i == k {
                assert(text_lt(p.id, s[j - 1].id));
            } else {
                assert(text_lt(s[i - 1].id, s[j - 1].id));
            }
        }
        assert(r[k] == p);
        assert forall|i: int| 0 <= i < s.len() && s[i].id != p.id implies r.contains(s[i]) by {
            if i < k {
                assert(r[i] == s[i]);
            } else {
                assert(r[i + 1] == s[i]);
            }
        }
        assert forall|q: PlayerView| r.contains(q) implies q == p || s.contains(q) by {
            let i = choose|i: int| 0 <= i < r.len() && r[i] == q;
            if i < k {
                assert(s[i] == q);
            } else if i > k {
                assert(s[i - 1] == q);
            }
        }
    }
    lemma_index_of_sorted(r, k, p.id);
}

/// In a sorted roster, the player found under an identifier is the one at its position.
pub proof fn lemma_index_of_sorted(s: Seq<PlayerView>, k: int, id: Seq<char>)
    requires
        ids_sorted(s),
        0 <= k < s.len(),
        s[k].id == id,
    ensures
        index_of(s, id) == Some(k),
{
    let i = choose|i: int| 0 <= i < s.len() && s[i].id == id;
    if i < k {
        assert(text_lt(s[i].id, s[k].id));
        lemma_text_lt_irreflexive(id);
    } else if i > k {
        assert(text_lt(s[k].id, s[i].id));
        lemma_text_lt_irreflexive(id);
    }
}

fn id_before(entries: &Vec<Player>, i: usize, key: &Vec<char>) -> (r: bool)
    requires
        i < entries@.len(),
    ensures
        r == text_lt(entries.deep_view()[i as int].id, key@),
{
    let cand = chars_of(entries[i].id.as_str());
    chars_lt(&cand, key)
}

/// The players of the event, kept in identifier order with no identifier twice.
#[derive(Debug)]
pub struct PlayerMap {
    entries: Vec<Player>,
}

impl View for PlayerMap {
    type V = Seq<PlayerView>;

    closed spec fn view(&self) -> Seq<PlayerView> {
        self.entries.deep_view()
    }
}

impl PlayerMap {
    /// The roster is in identifier order (the type's invariant).
    #[verifier::type_invariant]
    pub open spec fn sorted_by_id(self) -> bool {
        ids_sorted(self@)
    }

    /// An empty roster.
    pub fn new() -> (r: PlayerMap)
        ensures
            r@ == Seq::<PlayerView>::empty(),
    {
        let r = PlayerMap { entries: Vec::new() };
        assert(r@ =~= Seq::<PlayerView>::empty());
        r
    }

    /// The number of players.
    pub fn len(&self) -> (n: usize)
        ensures
            n == self@.len(),
    {
        self.entries.len()
    }

    /// Whether there is no player.
    pub fn is_empty(&self) -> (r: bool)
        ensures
            r == (self@.len() == 0),
    {
        self.entries.len() == 0
    }

    /// The player at position `i` in identifier order.
    pub fn at(&self, i: usize) -> (p: &Player)
        requires
            i < self@.len(),
        ensures
            p@ == self@[i as int],
    {
        &self.entries[i]
    }

    /// The position of the player with identifier `id`.
    pub fn position(&self, id: &str) -> (r: Option<usize>)
        ensures
            r matches Some(i) ==> i < self@.len() && Some(i as int) == index_of(self@, id@),
            r is None ==> index_of(self@, id@) is None,
    {
        proof {
            use_type_invariant(self);
        }
        let key = chars_of(id);
        let mut i: usize = 0;
        while i < self.entries.len()
            invariant
                i <= self@.len(),
                self@ == self.entries.deep_view(),
                ids_sorted(self@),
                key@ == id@,
                forall|k: int| 0 <= k < i ==> self@[k].id != id@,
            decreases self@.len() - i,
        {
            let cand = chars_of(self.entries[i].id.as_str());
            if same_chars(&cand, &key) {
                proof {
                    lemma_index_of_sorted(self@, i as int, id@);
                }
                return Some(i);
            }
            i = i + 1;
        }
        None
    }

    /// The player with identifier `id`, if any.
    pub fn get(&self, id: &str) -> (r: Option<&Player>)
        ensures
            r matches Some(p) ==> index_of(self@, id@) matches Some(i) && p@ == self@[i],
            r is None ==> index_of(self@, id@) is None,
    {
        match self.position(id) {
            Some(i) => Some(&self.entries[i]),
            None => None,
        }
    }

    /// Replaces the player at position `i` by one with the same identifier.
    pub fn set(&mut self, i: usize, p: Player)
        requires
            i < old(self)@.len(),
            p@.id == old(self)@[i as int].id,
        ensures
            final(self)@ == old(self)@.update(i as int, p@),
    {
        proof {
            use_type_invariant(&*self);
        }
        let mut entries = Vec::new();
        std::mem::swap(&mut entries, &mut self.entries);
        assert(entries.deep_view() == old(self)@);
        entries.set(i, p);
        assert(entries.deep_view() =~= old(self)@.update(i as int, p@));
        assert(ids_sorted(entries.deep_view())) by {
            let s = entries.deep_view();
            assert forall|a: int, b: int| 0 <= a < b < s.len() implies text_lt(
                #[trigger] s[a].id,
                #[trigger] s[b].id,
            ) by {
                assert(text_lt(old(self)@[a].id, old(self)@[b].id));
            }
        }
        self.entries = entries;
    }

    /// Stores `p` under its identifier, replacing a player with the same
    /// identifier if there is one (as `BTreeMap::insert` does).
    pub fn insert(&mut self, p: Player)
        ensures
            final(self)@ == stored(old(self)@, p@),
    {
        proof {
            use_type_invariant(&*self);
            lemma_lower_bound(old(self)@, p@.id);
            lemma_stored(old(self)@, p@);
        }
        let key = chars_of(p.id.as_str());
        let mut entries = Vec::new();
        std::mem::swap(&mut entries, &mut self.entries);
        assert(entries.deep_view() == old(self)@);
        let n = entries.len();
        let mut k: usize = n;
        // the first position whose identifier does not order before the key
        while k > 0 && !id_before(&entries, k - 1, &key)
            invariant
                k <= n,
                n == entries@.len(),
                entries.deep_view() == old(self)@,
                key@ == p@.id,
                forall|i: int| k <= i < n ==> !text_lt(#[trigger] old(self)@[i].id, p@.id),
                lower_bound(old(self)@, p@.id) <= n,
                forall|i: int| 0 <= i < lower_bound(old(self)@, p@.id) ==> text_lt(
                    #[trigger] old(self)@[i].id,
                    p@.id,
                ),
            decreases k,
        {
            k = k - 1;
        }
        assert(k == lower_bound(old(self)@, p@.id)) by {
            if k < lower_bound(old(self)@, p@.id) {
                assert(text_lt(old(self)@[k as int].id, p@.id));
            }
            if k > lower_bound(old(self)@, p@.id) {
                assert(!text_lt(old(self)@[k - 1].id, p@.id));
            }
        }
        let mut replace = false;
        if k < n {
            let cand = chars_of(entries[k].id.as_str());
            replace = same_chars(&cand, &key);
        }
        if replace {
            entries.set(k, p);
        } else {
            entries.insert(k, p);
        }
        assert(entries.deep_view() =~= stored(old(self)@, p@));
        self.entries = entries;
    }
}

// ---------------------------------------------------------------------------
// Open connections per player
// ---------------------------------------------------------------------------

/// No player identifier occurs twice.
pub open spec fn keys_unique(s: Seq<(Seq<char>, usize)>) -> bool {
    forall|i: int, j: int| 0 <= i < j < s.len() ==> (#[trigger] s[i]).0 != (#[trigger] s[j]).0
}

/// The number of open connections recorded for `id` (0 when none is).
pub open spec fn connection_count(s: Seq<(Seq<char>, usize)>, id: Seq<char>) -> nat {
    if exists|i: int| 0 <= i < s.len() && s[i].0 == id {
        s[choose|i: int| 0 <= i < s.len() && s[i].0 == id].1 as nat
    } else {
        0
    }
}

/// The number of open connections of each player that has one.
#[derive(Debug)]
pub struct ConnectionCounts {
    entries: Vec<(String, usize)>,
}

impl View for ConnectionCounts {
    type V = Seq<(Seq<char>, usize)>;

    closed spec fn view(&self) -> Seq<(Seq<char>, usize)> {
        Seq::new(self.entries@.len(), |i: int| (self.entries@[i].0@, self.entries@[i].1))
    }
}

proof fn lemma_count_at(s: Seq<(Seq<char>, usize)>, k: int)
    requires
        keys_unique(s),
        0 <= k < s.len(),
    ensures
        connection_count(s, s[k].0) == s[k].1,
{
    let i = choose|i: int| 0 <= i < s.len() && s[i].0 == s[k].0;
    if i < k {
        assert(s[i].0 != s[k].0);
    } else if i > k {
        assert(s[k].0 != s[i].0);
    }
}

impl ConnectionCounts {
    /// No identifier is recorded twice (the type's invariant).
    #[verifier::type_invariant]
    pub open spec fn unique(self) -> bool {
        keys_unique(self@)
    }

    /// No connection recorded.
    pub fn new() -> (r: ConnectionCounts)
        ensures
            forall|id: Seq<char>| connection_count(r@, id) == 0,
            r@.len() == 0,
    {
        let r = ConnectionCounts { entries: Vec::new() };
        assert(r@ =~= Seq::<(Seq<char>, usize)>::empty());
        r
    }

    fn find(&self, id: &str) -> (r: Option<usize>)
        ensures
            r matches Some(i) ==> i < self@.len() && self@[i as int].0 == id@,
            r is None ==> forall|i: int| 0 <= i < self@.len() ==> self@[i].0 != id@,
    {
        let key = chars_of(id);
        let mut i: usize = 0;
        while i < self.entries.len()
            invariant
                i <= self.entries@.len(),
                key@ == id@,
                forall|k: int| 0 <= k < i ==> self@[k].0 != id@,
            decreases self.entries@.len() - i,
        {
            let cand = chars_of(self.entries[i].0.as_str());
            if same_chars(&cand, &key) {
                return Some(i);
            }
            i = i + 1;
        }
        None
    }

    /// The number of open connections of player `id`.
    pub fn count(&self, id: &str) -> (n: usize)
        ensures
            n == connection_count(self@, id@),
    {
        proof {
            use_type_invariant(self);
        }
        match self.find(id) {
            Some(i) => {
                proof {
                    lemma_count_at(self@, i as int);
                }
                self.entries[i].1
            },
            None => 0,
        }
    }

    /// Records one more open connection of player `id`.
    pub fn opened(&mut self, id: &str)
        requires
            connection_count(old(self)@, id@) < usize::MAX,
        ensures
            connection_count(final(self)@, id@) == connection_count(old(self)@, id@) + 1,
            forall|other: Seq<char>| other != id@ ==> connection_count(final(self)@, other)
                == connection_count(old(self)@, other),
    {
        proof {
            use_type_invariant(&*self);
        }
        let ghost s = old(self)@;
        let found = self.find(id);
        let mut entries = Vec::new();
        std::mem::swap(&mut entries, &mut self.entries);
        assert(Seq::new(entries@.len(), |i: int| (entries@[i].0@, entries@[i].1)) == s);
        match found {
            Some(i) => {
                proof {
                    lemma_count_at(s, i as int);
                }
                let c = entries[i].1;
                let name = entries[i].0.clone();
                entries.set(i, (name, c + 1));
            },
            None => {
                entries.push((crate::text::owned(id), 1));
            },
        }
        let ghost t = Seq::new(entries@.len(), |i: int| (entries@[i].0@, entries@[i].1));
        assert(keys_unique(t)) by {
            assert forall|a: int, b: int| 0 <= a < b < t.len() implies (#[trigger] t[a]).0
                != (#[trigger] t[b]).0 by {
                if b < s.len() {
                    if found is Some {
                        let i = found->0 as int;
                        if a == i {
                            assert(t[a].0 == s[a].0);
                        }
                        if b == i {
                            assert(t[b].0 == s[b].0);
                        }
                    }
                    assert(s[a].0 != s[b].0);
                } else {
                    assert(t[b].0 == id@);
                    assert(s[a].0 != id@);
                }
            }
        }
        self.entries = entries;
        proof {
            let k: int = match found { Some(i) => i as int, None => s.len() as int };
            assert(t[k].0 == id@);
            lemma_count_at(t, k);
            assert forall|other: Seq<char>| other != id@ implies connection_count(t, other)
                == connection_count(s, other) by {
                if exists|i: int| 0 <= i < s.len() && s[i].0 == other {
                    let j = choose|i: int| 0 <= i < s.len() && s[i].0 == other;
                    lemma_count_at(s, j);
                    assert(t[j] == s[j]);
                    lemma_count_at(t, j);
                } else {
                    assert forall|i: int| 0 <= i < t.len() implies t[i].0 != other by {
                        if i != k {
                            assert(t[i] == s[i]);
                        }
                    }
                }
            }
        }
    }

    /// Records one connection of player `id` as closed; the record goes
    /// once no connection is left.
    pub fn closed(&mut self, id: &str)
        ensures
            connection_count(final(self)@, id@) == (if connection_count(old(self)@, id@) > 0 {
                connection_count(old(self)@, id@) - 1
            } else {
                0
            }),
            forall|other: Seq<char>| other != id@ ==> connection_count(final(self)@, other)
                == connection_count(old(self)@, other),
            forall|i: int| 0 <= i < final(self)@.len() ==> final(self)@[i].1 > 0 || exists|
                j: int,
            | 0 <= j < old(self)@.len() && old(self)@[j] == final(self)@[i],
    {
        proof {
            use_type_invariant(&*self);
        }
        let ghost s = old(self)@;
        let found = self.find(id);
        match found {
            None => {
                proof {
                    assert forall|i: int| 0 <= i < s.len() implies s[i].0 != id@ by {}
                    assert forall|i: int| 0 <= i < self@.len() implies self@[i].1 > 0 || exists|
                        j: int,
                    | 0 <= j < s.len() && s[j] == self@[i] by {
                        assert(s[i] == self@[i]);
                    }
                }
            },
            Some(i) => {
                proof {
                    lemma_count_at(s, i as int);
                }
                let mut entries = Vec::new();
        std::mem::swap(&mut entries, &mut self.entries);
                assert(Seq::new(entries@.len(), |i: int| (entries@[i].0@, entries@[i].1)) == s);
                let c = entries[i].1;
                let c2 = if c > 0 { c - 1 } else { 0 };
                if c2 == 0 {
                    entries.remove(i);
                } else {
                    let name = entries[i].0.clone();
                    entries.set(i, (name, c2));
                }
                let ghost t = Seq::new(entries@.len(), |j: int| (entries@[j].0@, entries@[j].1));
                proof {
                    if c2 == 0 {
                        assert(t =~= s.remove(i as int));
                    } else {
                        assert(t =~= s.update(i as int, (id@, c2)));
                    }
                }
                assert(keys_unique(t)) by {
                    assert forall|a: int, b: int| 0 <= a < b < t.len() implies (#[trigger] t[a]).0
                        != (#[trigger] t[b]).0 by {
                        if c2 == 0 {
                            if a < i && b < i {
                                assert(s[a].0 != s[b].0);
                            } else if a < i {
                                assert(s[a].0 != s[b + 1].0);
                            } else {
                                assert(s[a + 1].0 != s[b + 1].0);
                            }
                        } else {
                            assert(s[a].0 != s[b].0);
                        }
                    }
                }
                self.entries = entries;
                proof {
                    if c2 == 0 {
                        assert forall|j: int| 0 <= j < t.len() implies t[j].0 != id@ by {
                            if j < i {
                                assert(s[j].0 != s[i as int].0);
                            } else {
                                assert(s[i as int].0 != s[j + 1].0);
                            }
                        }
                    } else {
                        lemma_count_at(t, i as int);
                    }
                    assert forall|other: Seq<char>| other != id@ implies connection_count(t, other)
                        == connection_count(s, other) by {
                        if exists|k: int| 0 <= k < s.len() && s[k].0 == other {
                            let j = choose|k: int| 0 <= k < s.len() && s[k].0 == other;
                            lemma_count_at(s, j);
                            let jt = if c2 == 0 && j > i { j - 1 } else { j };
                            assert(t[jt] == s[j]);
                            lemma_count_at(t, jt);
                        } else {
                            assert forall|k: int| 0 <= k < t.len() implies t[k].0 != other by {
                                if c2 == 0 && k >= i {
                                    assert(t[k] == s[k + 1]);
                                } else if k != i {
                                    assert(t[k] == s[k]);
                                }
                            }
                        }
                    }
                    assert forall|k: int| 0 <= k < t.len() implies t[k].1 > 0 || exists|
                        j: int,
                    | 0 <= j < s.len() && s[j] == t[k] by {
                        if c2 == 0 {
                            if k < i {
                                assert(s[k] == t[k]);
                            } else {
                                assert(s[k + 1] == t[k]);
                            }
                        } else if k != i {
                            assert(s[k] == t[k]);
                        }
                    }
                }
            },
        }
    }
}

} // verus!
