//! A role pool: the FIFO waiting list of participants for one role.
//!
//! Insertion order is preserved, and a participant identity occurs at most
//! once per pool; cross-pool exclusivity is the queue state's concern.

use vstd::prelude::*;
use crate::participant::Participant;

verus! {

/// Identity `id` occurs somewhere in `s`.
pub open spec fn has_id(s: Seq<Participant>, id: u64) -> bool {
    exists|i: int| 0 <= i < s.len() && s[i].id == id
}

/// Every identity occurs at most once in `s`.
pub open spec fn unique_ids(s: Seq<Participant>) -> bool {
    forall|i: int, j: int| 0 <= i < j < s.len() ==> s[i].id != s[j].id
}

/// `s` with every entry of identity `id` removed, order otherwise kept.
pub open spec fn remove_id(s: Seq<Participant>, id: u64) -> Seq<Participant> {
    s.filter(|p: Participant| p.id != id)
}

/// How many entries of identity `id` the sequence holds.
pub open spec fn count_id(s: Seq<Participant>, id: u64) -> nat {
    s.filter(|p: Participant| p.id == id).len()
}

/// The display labels of a pool, oldest first.
pub open spec fn labels_of(s: Seq<Participant>) -> Seq<Seq<char>> {
    s.map_values(|p: Participant| p.label@)
}

/// The views of a list of labels.
pub open spec fn label_views(ls: Seq<String>) -> Seq<Seq<char>> {
    ls.map_values(|l: String| l@)
}

/// Filtering distributes over appending one element at the back.
proof fn lemma_filter_push(s: Seq<Participant>, pred: spec_fn(Participant) -> bool, p: Participant)
    ensures
        s.push(p).filter(pred) == if pred(p) {
            s.filter(pred).push(p)
        } else {
            s.filter(pred)
        },
{
    reveal(Seq::filter);
    assert(s.push(p).drop_last() =~= s);
    assert(s.push(p).last() == p);
}

/// Membership in a sequence extended at the back.
pub proof fn lemma_has_id_push(s: Seq<Participant>, p: Participant, o: u64)
    ensures
        has_id(s.push(p), o) == (has_id(s, o) || p.id == o),
{
    let r = s.push(p);
    if has_id(s, o) {
        let i = choose|i: int| 0 <= i < s.len() && s[i].id == o;
        assert(r[i].id == o);
    }
    if p.id == o {
        assert(r[s.len() as int].id == o);
    }
    if has_id(r, o) {
        let i = choose|i: int| 0 <= i < r.len() && r[i].id == o;
        if i < s.len() {
            assert(s[i].id == o);
        }
    }
}

/// Dropping the last element keeps uniqueness, and membership splits into
/// membership in the front and equality with the last identity.
proof fn lemma_unsnoc(s: Seq<Participant>, o: u64)
    requires
        s.len() > 0,
    ensures
        has_id(s, o) == (has_id(s.drop_last(), o) || s.last().id == o),
        unique_ids(s) ==> unique_ids(s.drop_last()),
        unique_ids(s) ==> !has_id(s.drop_last(), s.last().id),
{
    let t = s.drop_last();
    if has_id(t, o) {
        let i = choose|i: int| 0 <= i < t.len() && t[i].id == o;
        assert(s[i].id == o);
    }
    if s.last().id == o {
        assert(s[s.len() - 1].id == o);
    }
    if has_id(s, o) && s.last().id != o {
        let i = choose|i: int| 0 <= i < s.len() && s[i].id == o;
        assert(i < s.len() - 1);
        assert(t[i].id == o);
    }
    if unique_ids(s) {
        assert forall|i: int, j: int| 0 <= i < j < t.len() implies t[i].id != t[j].id by {
            assert(s[i].id != s[j].id);
        }
        if has_id(t, s.last().id) {
            let i = choose|i: int| 0 <= i < t.len() && t[i].id == s.last().id;
            assert(s[i].id != s[s.len() - 1].id);
        }
    }
}

/// The facts about `remove_id` that the queue engine needs: it removes every
/// entry of the given identity and nothing else, keeps uniqueness, and is the
/// identity map on sequences that do not hold the identity.
pub proof fn lemma_remove_id_props(s: Seq<Participant>, id: u64)
    ensures
        !has_id(remove_id(s, id), id),
        forall|o: u64| o != id ==> has_id(remove_id(s, id), o) == has_id(s, o),
        unique_ids(s) ==> unique_ids(remove_id(s, id)),
        !has_id(s, id) ==> remove_id(s, id) == s,
        unique_ids(s) && has_id(s, id) ==> remove_id(s, id).len() == s.len() - 1,
        remove_id(s, id).len() <= s.len(),
    decreases s.len(),
{
    reveal(Seq::filter);
    if s.len() == 0 {
        assert(remove_id(s, id) =~= s);
        assert(!has_id(s, id));
    } else {
        let t = s.drop_last();
        let x = s.last();
        lemma_remove_id_props(t, id);
        lemma_filter_push(t, |p: Participant| p.id != id, x);
        assert(t.push(x) =~= s);
        lemma_unsnoc(s, id);
        let rt = remove_id(t, id);
        if x.id != id {
            let r = rt.push(x);
            assert(remove_id(s, id) == r);
            assert forall|o: u64| o != id implies has_id(r, o) == has_id(s, o) by {
                lemma_has_id_push(rt, x, o);
                lemma_unsnoc(s, o);
            }
            if unique_ids(s) {
                lemma_unsnoc(s, x.id);
                assert(!has_id(t, x.id));
                assert(!has_id(rt, x.id));
                assert forall|i: int, j: int| 0 <= i < j < r.len() implies r[i].id != r[j].id by {
                    if j < r.len() - 1 {
                        assert(rt[i].id != rt[j].id);
                    } else {
                        assert(r[j] == x);
                        if r[i].id == x.id {
                            assert(rt[i].id == x.id);
                            assert(has_id(rt, x.id));
                        }
                    }
                }
            }
            if !has_id(s, id) {
                assert(!has_id(t, id));
                assert(rt == t);
                assert(remove_id(s, id) =~= s);
            }
        } else {
            assert(remove_id(s, id) == rt);
            assert forall|o: u64| o != id implies has_id(rt, o) == has_id(s, o) by {
                lemma_unsnoc(s, o);
            }
            assert(has_id(s, id)) by {
                assert(s[s.len() - 1].id == id);
            }
            if unique_ids(s) {
                assert(!has_id(t, id));
                assert(rt == t);
            }
        }
    }
}

/// An identity occurs in a sequence exactly as often as `count_id` says, and
/// under uniqueness at most once.
pub proof fn lemma_count_id_props(s: Seq<Participant>, id: u64)
    ensures
        count_id(s, id) <= s.len(),
        has_id(s, id) == (count_id(s, id) > 0),
        unique_ids(s) ==> count_id(s, id) <= 1,
        unique_ids(s) && has_id(s, id) ==> count_id(s, id) == 1,
    decreases s.len(),
{
    reveal(Seq::filter);
    if s.len() == 0 {
        assert(!has_id(s, id));
    } else {
        let t = s.drop_last();
        let x = s.last();
        lemma_count_id_props(t, id);
        lemma_filter_push(t, |p: Participant| p.id == id, x);
        assert(t.push(x) =~= s);
        lemma_unsnoc(s, id);
        if x.id == id && unique_ids(s) {
            assert(!has_id(t, id));
        }
    }
}

/// One step of scanning a sequence from the front, for loop proofs: extending
/// the scanned prefix by one element extends its `remove_id` image and its
/// membership accordingly.
proof fn lemma_remove_id_take_step(s: Seq<Participant>, id: u64, i: int)
    requires
        0 <= i < s.len(),
    ensures
        remove_id(s.take(i + 1), id) == if s[i].id != id {
            remove_id(s.take(i), id).push(s[i])
        } else {
            remove_id(s.take(i), id)
        },
        has_id(s.take(i + 1), id) == (has_id(s.take(i), id) || s[i].id == id),
{
    assert(s.take(i + 1) =~= s.take(i).push(s[i]));
    lemma_filter_push(s.take(i), |p: Participant| p.id != id, s[i]);
    let a = s.take(i);
    let b = s.take(i + 1);
    if s[i].id == id {
        assert(b[i].id == id);
        assert(has_id(b, id));
    }
    if has_id(a, id) {
        let j = choose|j: int| 0 <= j < a.len() && a[j].id == id;
        assert(b[j].id == id);
    }
    if has_id(b, id) && s[i].id != id {
        let j = choose|j: int| 0 <= j < b.len() && b[j].id == id;
        assert(j < i);
        assert(a[j].id == id);
    }
}

/// The FIFO waiting pool of one role.
pub struct Pool {
    items: Vec<Participant>,
}

impl View for Pool {
    type V = Seq<Participant>;

    closed spec fn view(&self) -> Seq<Participant> {
        self.items@
    }
}

impl Pool {
    /// No identity waits twice in the same pool.
    pub open spec fn wf(self) -> bool {
        unique_ids(self@)
    }

    /// An empty pool.
    pub fn new() -> (r: Pool)
        ensures
            r@ == Seq::<Participant>::empty(),
            r.wf(),
    {
        Pool { items: Vec::new() }
    }

    /// How many participants are waiting.
    pub fn size(&self) -> (n: usize)
        ensures
            n == self@.len(),
    {
        self.items.len()
    }

    /// Whether a participant with identity `id` is waiting here.
    pub fn contains(&self, id: u64) -> (b: bool)
        ensures
            b == has_id(self@, id),
    {
        let n: usize = self.items.len();
        let mut i: usize = 0;
        while i < n
            invariant
                0 <= i <= n,
                n == self@.len(),
                forall|j: int| 0 <= j < i ==> self@[j].id != id,
            decreases n - i,
        {
            if self.items[i].id == id {
                return true;
            }
            i = i + 1;
        }
        false
    }

    /// Appends a participant at the tail. The caller must already have ruled
    /// out a duplicate identity; the pool does not cross-check other pools.
    pub fn append(&mut self, p: Participant)
        requires
            !has_id(old(self)@, p.id),
        ensures
            final(self)@ == old(self)@.push(p),
    {
        self.items.push(p);
    }

    /// Removes the entry with identity `id` if present; a no-op otherwise.
    /// Returns whether anything was removed.
    pub fn remove_by_identity(&mut self, id: u64) -> (removed: bool)
        ensures
            final(self)@ == remove_id(old(self)@, id),
            removed == has_id(old(self)@, id),
    {
        let ghost s0 = self.items@;
        let total: usize = self.items.len();
        let mut kept: Vec<Participant> = Vec::new();
        let mut found: bool = false;
        let mut i: usize = 0;
        proof {
            assert(s0.take(0) =~= Seq::<Participant>::empty());
            reveal(Seq::filter);
        }
        while i < total
            invariant
                0 <= i <= total,
                total == s0.len(),
                self.items@ == s0.skip(i as int),
                kept@ == remove_id(s0.take(i as int), id),
                found == has_id(s0.take(i as int), id),
            decreases total - i,
        {
            let p = self.items.remove(0);
            proof {
                assert(p == s0.skip(i as int)[0]);
                assert(p == s0[i as int]);
                assert(s0.skip(i as int).remove(0) =~= s0.skip(i as int + 1));
                lemma_remove_id_take_step(s0, id, i as int);
            }
            if p.id != id {
                kept.push(p);
            } else {
                found = true;
            }
            i = i + 1;
        }
        proof {
            assert(s0.take(total as int) =~= s0);
        }
        self.items = kept;
        found
    }

    /// The display labels of the waiting participants, oldest first.
    pub fn labels(&self) -> (r: Vec<String>)
        ensures
            label_views(r@) == labels_of(self@),
    {
        let n: usize = self.items.len();
        let mut r: Vec<String> = Vec::new();
        let mut i: usize = 0;
        while i < n
            invariant
                0 <= i <= n,
                n == self@.len(),
                r@.len() == i,
                forall|j: int| 0 <= j < i ==> #[trigger] r@[j]@ == self@[j].label@,
            decreases n - i,
        {
            r.push(self.items[i].label.clone());
            i = i + 1;
        }
        proof {
            assert(label_views(r@) =~= labels_of(self@));
        }
        r
    }

    /// Removes and returns the `n` oldest entries, oldest first. The caller
    /// must already have checked that at least `n` participants are waiting.
    pub fn pop_oldest(&mut self, n: usize) -> (out: Vec<Participant>)
        requires
            n <= old(self)@.len(),
        ensures
            out@ == old(self)@.take(n as int),
            final(self)@ == old(self)@.skip(n as int),
    {
        let ghost s0 = self.items@;
        let mut out: Vec<Participant> = Vec::new();
        let mut i: usize = 0;
        proof {
            assert(s0.take(0) =~= Seq::<Participant>::empty());
            assert(s0.skip(0) =~= s0);
        }
        while i < n
            invariant
                0 <= i <= n,
                n <= s0.len(),
                self.items@ == s0.skip(i as int),
                out@ == s0.take(i as int),
            decreases n - i,
        {
            let p = self.items.remove(0);
            proof {
                assert(p == s0.skip(i as int)[0]);
                assert(p == s0[i as int]);
                assert(s0.skip(i as int).remove(0) =~= s0.skip(i as int + 1));
                assert(s0.take(i as int).push(s0[i as int]) =~= s0.take(i as int + 1));
            }
            out.push(p);
            i = i + 1;
        }
        out
    }
}

} // verus!
