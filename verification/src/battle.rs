//! One melee episode and its tally of greedy hits per participant.
//!
//! The tally is a vector of `(name, count)` pairs kept in strictly
//! increasing key order, so iteration is deterministic and key-sorted, and
//! every key is unique.

use vstd::prelude::*;

use crate::text::{lemma_lex_lt_asymmetric, lemma_lex_lt_connected, lemma_lex_lt_transitive,
    lex_lt, str_lt};

verus! {

/// One melee episode between two ships.
pub struct Battle {
    /// Sequential number of the battle within one parse pass.
    pub id: usize,
    /// Two-word ship name read positionally from the battle-start line.
    pub attacker_ship: String,
    /// Two-word ship name read positionally from the battle-start line.
    pub defender_ship: String,
    /// Strike count per participant, in strictly increasing key order.
    pub greedies: Vec<(String, usize)>,
}

/// Mathematical image of a `Battle`.
#[verifier::ext_equal]
pub struct BattleView {
    pub id: nat,
    pub attacker_ship: Seq<char>,
    pub defender_ship: Seq<char>,
    pub greedies: Seq<(Seq<char>, nat)>,
}

impl View for Battle {
    type V = BattleView;

    open spec fn view(&self) -> BattleView {
        BattleView {
            id: self.id as nat,
            attacker_ship: self.attacker_ship@,
            defender_ship: self.defender_ship@,
            greedies: self.greedies@.map_values(|p: (String, usize)| (p.0@, p.1 as nat)),
        }
    }
}

/// Keys strictly increase along the tally.
pub open spec fn greedies_sorted(g: Seq<(Seq<char>, nat)>) -> bool {
    forall|i: int, j: int| 0 <= i < j < g.len() ==> lex_lt(g[i].0, g[j].0)
}

/// The count recorded for `name`, or zero.
pub open spec fn greedy_count_of(g: Seq<(Seq<char>, nat)>, name: Seq<char>) -> nat
    decreases g.len(),
{
    if g.len() == 0 {
        0
    } else if g[0].0 == name {
        g[0].1
    } else {
        greedy_count_of(g.skip(1), name)
    }
}

/// Total number of strikes recorded in the tally.
pub open spec fn sum_counts(g: Seq<(Seq<char>, nat)>) -> nat
    decreases g.len(),
{
    if g.len() == 0 {
        0
    } else {
        g[0].1 + sum_counts(g.skip(1))
    }
}

/// The tally after one more strike by `name`: the existing entry counts one
/// more, or a fresh entry is inserted at its key-sorted position.
pub open spec fn bump(g: Seq<(Seq<char>, nat)>, name: Seq<char>) -> Seq<(Seq<char>, nat)>
    decreases g.len(),
{
    if g.len() == 0 {
        seq![(name, 1 as nat)]
    } else if lex_lt(name, g[0].0) {
        seq![(name, 1 as nat)] + g
    } else if name == g[0].0 {
        seq![(g[0].0, (g[0].1 + 1) as nat)] + g.skip(1)
    } else {
        seq![g[0]] + bump(g.skip(1), name)
    }
}

/// What one strike does to a sorted tally: order is kept, the total and the
/// striker's count grow by one, every other count is unchanged, and every
/// key is an old key or the striker's name.
pub proof fn lemma_bump_props(g: Seq<(Seq<char>, nat)>, name: Seq<char>)
    requires
        greedies_sorted(g),
    ensures
        greedies_sorted(bump(g, name)),
        sum_counts(bump(g, name)) == sum_counts(g) + 1,
        greedy_count_of(bump(g, name), name) == greedy_count_of(g, name) + 1,
        forall|o: Seq<char>|
            o != name ==> #[trigger] greedy_count_of(bump(g, name), o) == greedy_count_of(g, o),
        forall|j: int|
            0 <= j < bump(g, name).len() ==> (#[trigger] bump(g, name)[j].0 == name || exists|i: int|
                0 <= i < g.len() && g[i].0 == bump(g, name)[j].0),
    decreases g.len(),
{
    let b = bump(g, name);
    if g.len() == 0 {
        assert(b =~= seq![(name, 1 as nat)]);
        assert(sum_counts(b) == 1 + sum_counts(b.skip(1)));
        assert(b.skip(1) =~= Seq::<(Seq<char>, nat)>::empty());
        assert(greedy_count_of(b, name) == 1);
        assert forall|o: Seq<char>| o != name implies #[trigger] greedy_count_of(b, o)
            == greedy_count_of(g, o) by {
            assert(greedy_count_of(b, o) == greedy_count_of(b.skip(1), o));
        }
    } else if lex_lt(name, g[0].0) {
        assert(b == seq![(name, 1 as nat)] + g);
        assert(b.skip(1) =~= g);
        assert(greedies_sorted(b)) by {
            assert forall|i: int, j: int| 0 <= i < j < b.len() implies lex_lt(b[i].0, b[j].0) by {
                if i == 0 {
                    if j == 1 {
                    } else {
                        lemma_lex_lt_transitive(name, g[0].0, g[j - 1].0);
                    }
                }
            }
        }
        assert(sum_counts(b) == 1 + sum_counts(g));
        assert(greedy_count_of(b, name) == 1);
        assert(greedy_count_of(g, name) == 0) by {
            lemma_count_absent_below(g, name);
        }
        assert forall|o: Seq<char>| o != name implies #[trigger] greedy_count_of(b, o)
            == greedy_count_of(g, o) by {
            assert(greedy_count_of(b, o) == greedy_count_of(b.skip(1), o));
        }
    } else if name == g[0].0 {
        assert(b == seq![(g[0].0, (g[0].1 + 1) as nat)] + g.skip(1));
        assert(b.skip(1) =~= g.skip(1));
        assert(greedies_sorted(b)) by {
            assert forall|i: int, j: int| 0 <= i < j < b.len() implies lex_lt(b[i].0, b[j].0) by {
                if i == 0 {
                    assert(b[j].0 == g[j].0);
                    assert(lex_lt(g[0].0, g[j].0));
                }
            }
        }
        assert(sum_counts(b) == g[0].1 + 1 + sum_counts(g.skip(1)));
        assert(sum_counts(g) == g[0].1 + sum_counts(g.skip(1)));
        assert(greedy_count_of(b, name) == g[0].1 + 1);
        assert forall|o: Seq<char>| o != name implies #[trigger] greedy_count_of(b, o)
            == greedy_count_of(g, o) by {
            assert(greedy_count_of(b, o) == greedy_count_of(b.skip(1), o));
            assert(greedy_count_of(g, o) == greedy_count_of(g.skip(1), o));
        }
    } else {
        if !lex_lt(g[0].0, name) {
            lemma_lex_lt_connected(name, g[0].0);
            assert(false);
        }
        assert(lex_lt(g[0].0, name));
        let tail = g.skip(1);
        assert(greedies_sorted(tail)) by {
            assert forall|i: int, j: int| 0 <= i < j < tail.len() implies lex_lt(
                tail[i].0,
                tail[j].0,
            ) by {
                assert(tail[i] == g[i + 1] && tail[j] == g[j + 1]);
            }
        }
        lemma_bump_props(tail, name);
        let bt = bump(tail, name);
        assert(b == seq![g[0]] + bt);
        assert(b.skip(1) =~= bt);
        assert(greedies_sorted(b)) by {
            assert forall|i: int, j: int| 0 <= i < j < b.len() implies lex_lt(b[i].0, b[j].0) by {
                if i == 0 {
                    assert(b[j].0 == bt[j - 1].0);
                    if bt[j - 1].0 == name {
                    } else {
                        let k = choose|k: int| 0 <= k < tail.len() && tail[k].0 == bt[j - 1].0;
                        assert(tail[k] == g[k + 1]);
                        if k + 1 > 1 {
                            lemma_lex_lt_transitive(g[0].0, g[1].0, g[k + 1].0);
                        }
                    }
                }
            }
        }
        assert(sum_counts(b) == g[0].1 + sum_counts(bt));
        assert(sum_counts(g) == g[0].1 + sum_counts(tail));
        assert(b[0].0 == g[0].0 && g[0].0 != name);
        assert(greedy_count_of(b, name) == greedy_count_of(bt, name));
        assert(greedy_count_of(g, name) == greedy_count_of(tail, name));
        assert forall|o: Seq<char>| o != name implies #[trigger] greedy_count_of(b, o)
            == greedy_count_of(g, o) by {
            if o == g[0].0 {
                assert(greedy_count_of(b, o) == g[0].1);
                assert(greedy_count_of(g, o) == g[0].1);
            } else {
                assert(greedy_count_of(b, o) == greedy_count_of(bt, o));
                assert(greedy_count_of(g, o) == greedy_count_of(tail, o));
            }
        }
        assert forall|j: int| 0 <= j < b.len() implies (#[trigger] b[j].0 == name || exists|i: int|
            0 <= i < g.len() && g[i].0 == b[j].0) by {
            if j > 0 {
                assert(b[j] == bt[j - 1]);
                if bt[j - 1].0 != name {
                    let k = choose|k: int| 0 <= k < tail.len() && tail[k].0 == bt[j - 1].0;
                    assert(g[k + 1].0 == b[j].0);
                }
            } else {
                assert(g[0].0 == b[0].0);
            }
        }
    }
}

/// A key smaller than every key of a sorted tally is not in it.
proof fn lemma_count_absent_below(g: Seq<(Seq<char>, nat)>, name: Seq<char>)
    requires
        greedies_sorted(g),
        g.len() > 0 ==> lex_lt(name, g[0].0),
    ensures
        greedy_count_of(g, name) == 0,
    decreases g.len(),
{
    if g.len() > 0 {
        lemma_lex_lt_asymmetric(name, g[0].0);
        let tail = g.skip(1);
        assert forall|i: int, j: int| 0 <= i < j < tail.len() implies lex_lt(
            tail[i].0,
            tail[j].0,
        ) by {
            assert(tail[i] == g[i + 1] && tail[j] == g[j + 1]);
        }
        if tail.len() > 0 {
            assert(tail[0] == g[1]);
            lemma_lex_lt_transitive(name, g[0].0, g[1].0);
        }
        lemma_count_absent_below(tail, name);
    }
}

/// Every single count is at most the total.
pub proof fn lemma_count_le_sum(g: Seq<(Seq<char>, nat)>, j: int)
    requires
        0 <= j < g.len(),
    ensures
        g[j].1 <= sum_counts(g),
    decreases g.len(),
{
    if j == 0 {
    } else {
        assert(g.skip(1)[j - 1] == g[j]);
        lemma_count_le_sum(g.skip(1), j - 1);
    }
}

/// The total over a prefix never exceeds the total.
pub proof fn lemma_sum_prefix(g: Seq<(Seq<char>, nat)>, i: int)
    requires
        0 <= i <= g.len(),
    ensures
        sum_counts(g.take(i)) + sum_counts(g.skip(i)) == sum_counts(g),
    decreases i,
{
    if i == 0 {
        assert(g.take(0) =~= Seq::<(Seq<char>, nat)>::empty());
        assert(g.skip(0) =~= g);
    } else {
        lemma_sum_prefix(g.skip(1), i - 1);
        assert(g.take(i).skip(1) =~= g.skip(1).take(i - 1));
        assert(g.skip(i) =~= g.skip(1).skip(i - 1));
        assert(sum_counts(g.take(i)) == g[0].1 + sum_counts(g.skip(1).take(i - 1)));
        assert(sum_counts(g) == g[0].1 + sum_counts(g.skip(1)));
    }
}

} // verus!

verus! {

/// `bump` in terms of the key-sorted insertion position `i`: an existing
/// entry for `name` is counted up, any other key gets a fresh entry at `i`.
pub proof fn lemma_bump_at(g: Seq<(Seq<char>, nat)>, name: Seq<char>, i: int)
    requires
        greedies_sorted(g),
        0 <= i <= g.len(),
        forall|j: int| 0 <= j < i ==> lex_lt(#[trigger] g[j].0, name),
        i < g.len() ==> !lex_lt(g[i].0, name),
    ensures
        i < g.len() && g[i].0 == name ==> bump(g, name) == g.update(i, (name, (g[i].1 + 1) as nat)),
        !(i < g.len() && g[i].0 == name) ==> bump(g, name) == g.insert(i, (name, 1 as nat)),
    decreases i,
{
    if i == 0 {
        if g.len() == 0 {
            assert(bump(g, name) =~= g.insert(0, (name, 1 as nat)));
        } else if lex_lt(name, g[0].0) {
            lemma_lex_lt_asymmetric(name, g[0].0);
            assert(bump(g, name) =~= g.insert(0, (name, 1 as nat)));
        } else if name == g[0].0 {
            assert(bump(g, name) =~= g.update(0, (name, (g[0].1 + 1) as nat)));
        } else {
            lemma_lex_lt_connected(name, g[0].0);
            assert(false);
        }
    } else {
        lemma_lex_lt_asymmetric(g[0].0, name);
        let tail = g.skip(1);
        assert(greedies_sorted(tail)) by {
            assert forall|a: int, b: int| 0 <= a < b < tail.len() implies lex_lt(
                tail[a].0,
                tail[b].0,
            ) by {
                assert(tail[a] == g[a + 1] && tail[b] == g[b + 1]);
            }
        }
        assert(forall|j: int| 0 <= j < i - 1 ==> lex_lt(#[trigger] tail[j].0, name)) by {
            assert(forall|j: int| 0 <= j < i - 1 ==> tail[j] == g[j + 1]);
        }
        assert(i - 1 < tail.len() ==> !lex_lt(tail[i - 1].0, name)) by {
            assert(i - 1 < tail.len() ==> tail[i - 1] == g[i]);
        }
        lemma_bump_at(tail, name, i - 1);
        assert(bump(g, name) == seq![g[0]] + bump(tail, name));
        if i < g.len() && g[i].0 == name {
            assert(tail[i - 1] == g[i]);
            assert(seq![g[0]] + tail.update(i - 1, (name, (g[i].1 + 1) as nat)) =~= g.update(
                i,
                (name, (g[i].1 + 1) as nat),
            ));
        } else {
            assert(seq![g[0]] + tail.insert(i - 1, (name, 1 as nat)) =~= g.insert(
                i,
                (name, 1 as nat),
            ));
        }
    }
}

/// Inserting anywhere adds one occurrence to the multiset of a sequence.
pub proof fn lemma_insert_to_multiset<T>(s: Seq<T>, p: int, x: T)
    requires
        0 <= p <= s.len(),
    ensures
        s.insert(p, x).to_multiset() == s.to_multiset().insert(x),
{
    broadcast use vstd::multiset::group_multiset_axioms;
    broadcast use vstd::seq_lib::group_to_multiset_ensures;

    assert(s.insert(p, x) =~= s.take(p).push(x) + s.skip(p));
    assert(s =~= s.take(p) + s.skip(p));
    vstd::seq_lib::lemma_multiset_commutative(s.take(p).push(x), s.skip(p));
    vstd::seq_lib::lemma_multiset_commutative(s.take(p), s.skip(p));
    assert(s.take(p).push(x).to_multiset() =~= s.take(p).to_multiset().insert(x));
    assert(s.take(p).to_multiset().insert(x).add(s.skip(p).to_multiset()) =~= s.take(
        p,
    ).to_multiset().add(s.skip(p).to_multiset()).insert(x));
}

/// The total of a tally grows by the last entry's count.
pub proof fn lemma_sum_snoc(g: Seq<(Seq<char>, nat)>, x: (Seq<char>, nat))
    ensures
        sum_counts(g.push(x)) == sum_counts(g) + x.1,
    decreases g.len(),
{
    if g.len() == 0 {
        assert(g.push(x)[0] == x);
        assert(g.push(x).skip(1) =~= Seq::<(Seq<char>, nat)>::empty());
        assert(sum_counts(g.push(x)) == x.1 + sum_counts(g.push(x).skip(1)));
        assert(sum_counts(Seq::<(Seq<char>, nat)>::empty()) == 0);
    } else {
        assert(g.push(x)[0] == g[0]);
        assert(g.push(x).skip(1) =~= g.skip(1).push(x));
        lemma_sum_snoc(g.skip(1), x);
        assert(sum_counts(g.push(x)) == g[0].1 + sum_counts(g.skip(1).push(x)));
        assert(sum_counts(g) == g[0].1 + sum_counts(g.skip(1)));
    }
}

/// The views of a tally vector.
pub open spec fn pairs_view(s: Seq<(String, usize)>) -> Seq<(Seq<char>, nat)> {
    s.map_values(|p: (String, usize)| (p.0@, p.1 as nat))
}

/// Counts never increase along the sequence.
pub open spec fn counts_sorted_desc(g: Seq<(Seq<char>, nat)>) -> bool {
    forall|i: int, j: int| 0 <= i < j < g.len() ==> g[i].1 >= g[j].1
}

impl Battle {
    /// Record one greedy hit by `name` in this battle's tally.
    pub fn record_greedy(&mut self, name: &String)
        requires
            greedies_sorted(old(self)@.greedies),
            sum_counts(old(self)@.greedies) < usize::MAX,
        ensures
            final(self)@.greedies == bump(old(self)@.greedies, name@),
            final(self)@.id == old(self)@.id,
            final(self)@.attacker_ship == old(self)@.attacker_ship,
            final(self)@.defender_ship == old(self)@.defender_ship,
    {
        let ghost gv = self@.greedies;
        let n = self.greedies.len();
        let mut i: usize = 0;
        while i < n && str_lt(self.greedies[i].0.as_str(), name.as_str())
            invariant
                n == self.greedies.len(),
                0 <= i <= n,
                gv == self@.greedies,
                forall|j: int| 0 <= j < i ==> lex_lt(#[trigger] gv[j].0, name@),
            decreases n - i,
        {
            i += 1;
        }
        proof {
            lemma_bump_at(gv, name@, i as int);
        }
        if i < n && self.greedies[i].0 == *name {
            let c = self.greedies[i].1;
            proof {
                lemma_count_le_sum(gv, i as int);
            }
            let key = self.greedies[i].0.clone();
            self.greedies.set(i, (key, c + 1));
            proof {
                assert(self@.greedies =~= gv.update(i as int, (name@, (gv[i as int].1 + 1) as nat)));
            }
        } else {
            self.greedies.insert(i, (name.clone(), 1));
            proof {
                assert(self@.greedies =~= gv.insert(i as int, (name@, 1 as nat)));
            }
        }
    }

    /// The strike count recorded for `name` in this battle, or zero.
    pub fn greedy_count(&self, name: &String) -> (r: usize)
        ensures
            r as nat == greedy_count_of(self@.greedies, name@),
    {
        let ghost gv = self@.greedies;
        let n = self.greedies.len();
        let mut i: usize = 0;
        proof {
            assert(gv.skip(0) =~= gv);
        }
        while i < n
            invariant
                n == self.greedies.len(),
                0 <= i <= n,
                gv == self@.greedies,
                greedy_count_of(gv, name@) == greedy_count_of(gv.skip(i as int), name@),
            decreases n - i,
        {
            proof {
                assert(gv.skip(i as int)[0] == gv[i as int]);
            }
            if self.greedies[i].0 == *name {
                return self.greedies[i].1;
            }
            proof {
                assert(gv.skip(i as int).skip(1) =~= gv.skip(i + 1));
            }
            i += 1;
        }
        proof {
            assert(gv.skip(i as int).len() == 0);
        }
        0
    }

    /// Total number of greedy hits recorded in this battle.
    pub fn total_greedy_hits(&self) -> (r: usize)
        requires
            sum_counts(self@.greedies) <= usize::MAX,
        ensures
            r as nat == sum_counts(self@.greedies),
    {
        let ghost gv = self@.greedies;
        let n = self.greedies.len();
        let mut acc: usize = 0;
        let mut i: usize = 0;
        proof {
            assert(gv.take(0) =~= Seq::<(Seq<char>, nat)>::empty());
        }
        while i < n
            invariant
                n == self.greedies.len(),
                0 <= i <= n,
                gv == self@.greedies,
                sum_counts(gv) <= usize::MAX,
                acc as nat == sum_counts(gv.take(i as int)),
            decreases n - i,
        {
            proof {
                assert(gv.take(i + 1) =~= gv.take(i as int).push(gv[i as int]));
                lemma_sum_snoc(gv.take(i as int), gv[i as int]);
                lemma_sum_prefix(gv, i + 1);
                assert(gv[i as int].1 == self.greedies@[i as int].1 as nat);
                assert(acc + self.greedies@[i as int].1 <= sum_counts(gv));
            }
            acc = acc + self.greedies[i].1;
            i += 1;
        }
        proof {
            assert(gv.take(n as int) =~= gv);
        }
        acc
    }

    /// The tally entries ordered by strike count, largest first.
    pub fn greedies_by_count(&self) -> (r: Vec<(String, usize)>)
        ensures
            counts_sorted_desc(pairs_view(r@)),
            pairs_view(r@).to_multiset() == self@.greedies.to_multiset(),
    {
        let ghost gv = self@.greedies;
        let n = self.greedies.len();
        let mut r: Vec<(String, usize)> = Vec::new();
        let mut i: usize = 0;
        proof {
            broadcast use vstd::seq_lib::group_to_multiset_ensures;

            assert(gv.take(0) =~= Seq::<(Seq<char>, nat)>::empty());
            assert(pairs_view(r@) =~= Seq::<(Seq<char>, nat)>::empty());
            assert(Seq::<(Seq<char>, nat)>::empty().to_multiset() =~= Seq::<(
                Seq<char>,
                nat,
            )>::empty().push((Seq::empty(), 0 as nat)).to_multiset().remove((Seq::empty(), 0 as nat)));
        }
        while i < n
            invariant
                n == self.greedies.len(),
                0 <= i <= n,
                gv == self@.greedies,
                counts_sorted_desc(pairs_view(r@)),
                pairs_view(r@).to_multiset() == gv.take(i as int).to_multiset(),
            decreases n - i,
        {
            let ghost rv = pairs_view(r@);
            let c = self.greedies[i].1;
            let m = r.len();
            let mut p: usize = 0;
            while p < m && r[p].1 >= c
                invariant
                    m == r.len(),
                    0 <= p <= m,
                    rv == pairs_view(r@),
                    forall|j: int| 0 <= j < p ==> #[trigger] rv[j].1 >= c as nat,
                decreases m - p,
            {
                p += 1;
            }
            let entry = (self.greedies[i].0.clone(), c);
            r.insert(p, entry);
            proof {
                assert(pairs_view(r@) =~= rv.insert(p as int, (gv[i as int].0, gv[i as int].1)));
                assert((gv[i as int].0, gv[i as int].1) == gv[i as int]);
                lemma_insert_to_multiset(rv, p as int, gv[i as int]);
                broadcast use vstd::seq_lib::group_to_multiset_ensures;

                assert(gv.take(i + 1) =~= gv.take(i as int).push(gv[i as int]));
                assert(counts_sorted_desc(pairs_view(r@))) by {
                    let nv = pairs_view(r@);
                    assert forall|a: int, b: int| 0 <= a < b < nv.len() implies nv[a].1
                        >= nv[b].1 by {
                        if a < p && b == p {
                        } else if a == p && b > p {
                            assert(nv[b] == rv[b - 1]);
                            if p < m {
                                assert(rv[p as int].1 < c as nat);
                            }
                        } else if a < p && b > p {
                            assert(nv[a] == rv[a] && nv[b] == rv[b - 1]);
                        } else if a > p && b > p {
                            assert(nv[a] == rv[a - 1] && nv[b] == rv[b - 1]);
                        }
                    }
                }
            }
            i += 1;
        }
        proof {
            assert(gv.take(n as int) =~= gv);
        }
        r
    }
}

impl Clone for Battle {
    fn clone(&self) -> (r: Self)
        ensures
            r@ == self@,
    {
        let n = self.greedies.len();
        let mut g: Vec<(String, usize)> = Vec::new();
        let mut i: usize = 0;
        while i < n
            invariant
                n == self.greedies.len(),
                0 <= i <= n,
                g@.len() == i,
                forall|j: int| 0 <= j < i ==> g@[j] == self.greedies@[j],
            decreases n - i,
        {
            g.push((self.greedies[i].0.clone(), self.greedies[i].1));
            i += 1;
        }
        let r = Battle {
            id: self.id,
            attacker_ship: self.attacker_ship.clone(),
            defender_ship: self.defender_ship.clone(),
            greedies: g,
        };
        proof {
            assert(r.greedies@ =~= self.greedies@);
            assert(r@ =~= self@);
        }
        r
    }
}

} // verus!

verus! {

/// The views of a sequence of battles.
pub open spec fn battle_views(s: Seq<Battle>) -> Seq<BattleView> {
    s.map_values(|b: Battle| b@)
}

} // verus!
