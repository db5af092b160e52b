//! Read-only queries over the aggregate: all messages in creation order,
//! and case-insensitive substring search.

use vstd::prelude::*;

use crate::message::{disjoint_ids, msg_views, msgs_sorted, Message, MessageView};
use crate::parser::ParsedChatLog;
use crate::text::{contains_sub, has_sub, lower_of, lowercase};

verus! {

// ---------------------------------------------------------------------------
// Merging two id-sorted message sequences.
// ---------------------------------------------------------------------------

/// Merge two sequences by ascending id, taking from the first on smaller
/// head id.
pub open spec fn merge_sorted(a: Seq<MessageView>, b: Seq<MessageView>) -> Seq<MessageView>
    decreases a.len() + b.len(),
{
    if a.len() == 0 {
        b
    } else if b.len() == 0 {
        a
    } else if a[0].id < b[0].id {
        seq![a[0]] + merge_sorted(a.skip(1), b)
    } else {
        seq![b[0]] + merge_sorted(a, b.skip(1))
    }
}

/// Merging two id-sorted sequences with no shared id yields an id-sorted
/// permutation of their concatenation, with no new elements.
pub proof fn lemma_merge_sorted_props(a: Seq<MessageView>, b: Seq<MessageView>)
    requires
        msgs_sorted(a),
        msgs_sorted(b),
        disjoint_ids(a, b),
    ensures
        msgs_sorted(merge_sorted(a, b)),
        merge_sorted(a, b).to_multiset() == (a + b).to_multiset(),
        merge_sorted(a, b).len() == a.len() + b.len(),
        forall|x: MessageView| #[trigger]
            merge_sorted(a, b).contains(x) ==> (a.contains(x) || b.contains(x)),
    decreases a.len() + b.len(),
{
    broadcast use vstd::seq_lib::group_to_multiset_ensures;

    let m = merge_sorted(a, b);
    if a.len() == 0 {
        assert(a + b =~= b);
    } else if b.len() == 0 {
        assert(a + b =~= a);
    } else if a[0].id < b[0].id {
        let at = a.skip(1);
        assert(msgs_sorted(at)) by {
            assert(forall|i: int, j: int|
                0 <= i < j < at.len() ==> at[i] == a[i + 1] && at[j] == a[j + 1]);
        }
        assert(disjoint_ids(at, b)) by {
            assert(forall|i: int| 0 <= i < at.len() ==> at[i] == a[i + 1]);
        }
        lemma_merge_sorted_props(at, b);
        let rest = merge_sorted(at, b);
        assert(m == seq![a[0]] + rest);
        assert(msgs_sorted(m)) by {
            assert forall|i: int, j: int| 0 <= i < j < m.len() implies m[i].id < m[j].id by {
                if i == 0 {
                    assert(m[j] == rest[j - 1]);
                    assert(rest.contains(rest[j - 1]));
                    if at.contains(rest[j - 1]) {
                        let k = choose|k: int| 0 <= k < at.len() && at[k] == rest[j - 1];
                        assert(at[k] == a[k + 1]);
                    } else {
                        let k = choose|k: int| 0 <= k < b.len() && b[k] == rest[j - 1];
                        assert(b[0].id <= b[k].id);
                    }
                } else {
                    assert(m[i] == rest[i - 1] && m[j] == rest[j - 1]);
                }
            }
        }
        assert(m.to_multiset() == (a + b).to_multiset()) by {
            assert(seq![a[0]] + rest =~= rest.insert(0, a[0]));
            crate::battle::lemma_insert_to_multiset(rest, 0, a[0]);
            assert(a + b =~= (at + b).insert(0, a[0]));
            crate::battle::lemma_insert_to_multiset(at + b, 0, a[0]);
        }
        assert forall|x: MessageView| #[trigger] m.contains(x) implies (a.contains(x)
            || b.contains(x)) by {
            let k = choose|k: int| 0 <= k < m.len() && m[k] == x;
            if k == 0 {
                assert(a[0] == x);
            } else {
                assert(rest[k - 1] == x);
                assert(rest.contains(x));
                if at.contains(x) {
                    let k2 = choose|k2: int| 0 <= k2 < at.len() && at[k2] == x;
                    assert(a[k2 + 1] == x);
                }
            }
        }
    } else {
        assert(a[0].id != b[0].id);
        assert(b[0].id < a[0].id);
        let bt = b.skip(1);
        assert(msgs_sorted(bt)) by {
            assert(forall|i: int, j: int|
                0 <= i < j < bt.len() ==> bt[i] == b[i + 1] && bt[j] == b[j + 1]);
        }
        assert(disjoint_ids(a, bt)) by {
            assert(forall|j: int| 0 <= j < bt.len() ==> bt[j] == b[j + 1]);
        }
        lemma_merge_sorted_props(a, bt);
        let rest = merge_sorted(a, bt);
        assert(m == seq![b[0]] + rest);
        assert(msgs_sorted(m)) by {
            assert forall|i: int, j: int| 0 <= i < j < m.len() implies m[i].id < m[j].id by {
                if i == 0 {
                    assert(m[j] == rest[j - 1]);
                    assert(rest.contains(rest[j - 1]));
                    if a.contains(rest[j - 1]) {
                        let k = choose|k: int| 0 <= k < a.len() && a[k] == rest[j - 1];
                        assert(a[0].id <= a[k].id);
                    } else {
                        let k = choose|k: int| 0 <= k < bt.len() && bt[k] == rest[j - 1];
                        assert(bt[k] == b[k + 1]);
                    }
                } else {
                    assert(m[i] == rest[i - 1] && m[j] == rest[j - 1]);
                }
            }
        }
        assert(m.to_multiset() == (a + b).to_multiset()) by {
            assert(seq![b[0]] + rest =~= rest.insert(0, b[0]));
            crate::battle::lemma_insert_to_multiset(rest, 0, b[0]);
            assert(a + b =~= (a + bt).insert(a.len() as int, b[0]));
            crate::battle::lemma_insert_to_multiset(a + bt, a.len() as int, b[0]);
        }
        assert forall|x: MessageView| #[trigger] m.contains(x) implies (a.contains(x)
            || b.contains(x)) by {
            let k = choose|k: int| 0 <= k < m.len() && m[k] == x;
            if k == 0 {
                assert(b[0] == x);
            } else {
                assert(rest[k - 1] == x);
                assert(rest.contains(x));
                if bt.contains(x) {
                    let k2 = choose|k2: int| 0 <= k2 < bt.len() && bt[k2] == x;
                    assert(b[k2 + 1] == x);
                }
            }
        }
    }
}

/// Merge two message vectors by ascending id.
pub fn merge_by_id(a: &Vec<Message>, b: &Vec<Message>) -> (r: Vec<Message>)
    ensures
        msg_views(r@) == merge_sorted(msg_views(a@), msg_views(b@)),
{
    let ghost av = msg_views(a@);
    let ghost bv = msg_views(b@);
    let a_len = a.len();
    let b_len = b.len();
    let mut r: Vec<Message> = Vec::new();
    let mut i: usize = 0;
    let mut j: usize = 0;
    proof {
        assert(av.skip(0) =~= av);
        assert(bv.skip(0) =~= bv);
        assert(msg_views(r@) + merge_sorted(av, bv) =~= merge_sorted(av, bv));
    }
    while i < a_len || j < b_len
        invariant
            a_len == a@.len(),
            b_len == b@.len(),
            av == msg_views(a@),
            bv == msg_views(b@),
            0 <= i <= a_len,
            0 <= j <= b_len,
            msg_views(r@) + merge_sorted(av.skip(i as int), bv.skip(j as int)) == merge_sorted(
                av,
                bv,
            ),
        decreases a_len - i + b_len - j,
    {
        let ghost old_r = r@;
        let ghost avi = av.skip(i as int);
        let ghost bvj = bv.skip(j as int);
        let take_a = if i >= a_len {
            false
        } else if j >= b_len {
            true
        } else {
            a[i].id < b[j].id
        };
        if take_a {
            proof {
                assert(avi[0] == av[i as int]);
                assert(avi.skip(1) =~= av.skip(i + 1));
                assert(merge_sorted(avi, bvj) == seq![avi[0]] + merge_sorted(av.skip(i + 1), bvj));
            }
            r.push(a[i].clone());
            i += 1;
        } else {
            proof {
                assert(bvj[0] == bv[j as int]);
                assert(bvj.skip(1) =~= bv.skip(j + 1));
                assert(avi.len() == 0 ==> merge_sorted(avi, bvj) == bvj);
                assert(avi.len() == 0 ==> bvj =~= seq![bvj[0]] + merge_sorted(avi, bv.skip(j + 1)));
                assert(merge_sorted(avi, bvj) == seq![bvj[0]] + merge_sorted(avi, bv.skip(j + 1)));
            }
            r.push(b[j].clone());
            j += 1;
        }
        proof {
            assert(msg_views(r@) =~= msg_views(old_r) + seq![msg_views(r@).last()]);
        }
    }
    proof {
        assert(av.skip(i as int).len() == 0);
        assert(bv.skip(j as int).len() == 0);
        assert(merge_sorted(av.skip(i as int), bv.skip(j as int)).len() == 0);
        assert(msg_views(r@) + merge_sorted(av.skip(i as int), bv.skip(j as int)) =~= msg_views(
            r@,
        ));
    }
    r
}

} // verus!

verus! {

// ---------------------------------------------------------------------------
// Case-insensitive matching and filtering.
// ---------------------------------------------------------------------------

/// The message matches the search term: the lowercase form of the term
/// occurs in the lowercase form of the contents.
pub open spec fn msg_matches(mv: MessageView, term: Seq<char>) -> bool {
    has_sub(lower_of(mv.contents), lower_of(term))
}

/// `msg_matches` as a predicate on messages, for filtering.
pub open spec fn match_pred(term: Seq<char>) -> spec_fn(MessageView) -> bool {
    |mv: MessageView| msg_matches(mv, term)
}

/// Keep the messages whose contents hold the search term, case
/// insensitively.
fn filter_matching(msgs: &Vec<Message>, term_lower: &str, term: Ghost<Seq<char>>) -> (r: Vec<
    Message,
>)
    requires
        term_lower@ == lower_of(term@),
    ensures
        msg_views(r@) == msg_views(msgs@).filter(match_pred(term@)),
{
    let ghost mv = msg_views(msgs@);
    let ghost p = match_pred(term@);
    let n = msgs.len();
    let mut r: Vec<Message> = Vec::new();
    let mut i: usize = 0;
    proof {
        reveal(Seq::filter);
        assert(mv.take(0) =~= Seq::<MessageView>::empty());
        assert(Seq::<MessageView>::empty().filter(p) =~= Seq::<MessageView>::empty());
        assert(msg_views(r@) =~= Seq::<MessageView>::empty());
    }
    while i < n
        invariant
            n == msgs@.len(),
            mv == msg_views(msgs@),
            p == match_pred(term@),
            term_lower@ == lower_of(term@),
            0 <= i <= n,
            msg_views(r@) == mv.take(i as int).filter(p),
        decreases n - i,
    {
        let lc = lowercase(msgs[i].contents.as_str());
        let keep = contains_sub(lc.as_str(), term_lower);
        proof {
            reveal(Seq::filter);
            assert(keep == msg_matches(mv[i as int], term@));
            assert(p(mv[i as int]) == keep);
            assert(mv.take(i + 1) =~= mv.take(i as int).push(mv[i as int]));
            assert(mv.take(i + 1).drop_last() =~= mv.take(i as int));
            assert(mv.take(i + 1).last() == mv[i as int]);
            if keep {
                assert(mv.take(i + 1).filter(p) == mv.take(i as int).filter(p).push(
                    mv[i as int],
                ));
            } else {
                assert(mv.take(i + 1).filter(p) == mv.take(i as int).filter(p));
            }
        }
        if keep {
            let ghost old_r = r@;
            r.push(msgs[i].clone());
            proof {
                assert(msg_views(r@) =~= msg_views(old_r).push(mv[i as int]));
            }
        }
        i += 1;
    }
    proof {
        assert(mv.take(n as int) =~= mv);
    }
    r
}

/// Filtering an id-sorted sequence keeps it id-sorted and adds nothing.
pub proof fn lemma_filter_sorted(s: Seq<MessageView>, p: spec_fn(MessageView) -> bool)
    requires
        msgs_sorted(s),
    ensures
        msgs_sorted(s.filter(p)),
        forall|x: MessageView| #[trigger] s.filter(p).contains(x) ==> s.contains(x),
    decreases s.len(),
{
    reveal(Seq::filter);
    if s.len() == 0 {
    } else {
        let dl = s.drop_last();
        assert(msgs_sorted(dl)) by {
            assert(forall|i: int, j: int|
                0 <= i < j < dl.len() ==> dl[i] == s[i] && dl[j] == s[j]);
        }
        lemma_filter_sorted(dl, p);
        let f = s.filter(p);
        let fd = dl.filter(p);
        assert forall|x: MessageView| #[trigger] f.contains(x) implies s.contains(x) by {
            let k = choose|k: int| 0 <= k < f.len() && f[k] == x;
            if p(s.last()) {
                assert(f == fd.push(s.last()));
                if k == f.len() - 1 {
                    assert(s[s.len() - 1] == x);
                    assert(s.contains(x));
                } else {
                    assert(fd[k] == x);
                    assert(fd.contains(x));
                    let k2 = choose|k2: int| 0 <= k2 < dl.len() && dl[k2] == x;
                    assert(s[k2] == x);
                    assert(s.contains(x));
                }
            } else {
                assert(f == fd);
                assert(fd.contains(x));
                let k2 = choose|k2: int| 0 <= k2 < dl.len() && dl[k2] == x;
                assert(s[k2] == x);
                assert(s.contains(x));
            }
        }
        assert(msgs_sorted(f)) by {
            assert forall|i: int, j: int| 0 <= i < j < f.len() implies f[i].id < f[j].id by {
                if p(s.last()) {
                    assert(f == fd.push(s.last()));
                    if j == f.len() - 1 {
                        assert(f[i] == fd[i]);
                        assert(fd.contains(fd[i]));
                        assert(dl.contains(fd[i]));
                        let k = choose|k: int| 0 <= k < dl.len() && dl[k] == fd[i];
                        assert(s[k] == fd[i]);
                        assert(s[k].id < s.last().id);
                    } else {
                        assert(f[i] == fd[i] && f[j] == fd[j]);
                    }
                } else {
                    assert(f == fd);
                }
            }
        }
    }
}

/// Ids found in a merged or filtered sequence come from the originals, so
/// disjointness carries over.
pub proof fn lemma_union_disjoint(
    m: Seq<MessageView>,
    a: Seq<MessageView>,
    b: Seq<MessageView>,
    c: Seq<MessageView>,
)
    requires
        forall|x: MessageView| #[trigger] m.contains(x) ==> (a.contains(x) || b.contains(x)),
        disjoint_ids(a, c),
        disjoint_ids(b, c),
    ensures
        disjoint_ids(m, c),
{
    assert forall|i: int, j: int| 0 <= i < m.len() && 0 <= j < c.len() implies #[trigger] m[i].id
        != #[trigger] c[j].id by {
        assert(m.contains(m[i]));
        if a.contains(m[i]) {
            let k = choose|k: int| 0 <= k < a.len() && a[k] == m[i];
            assert(a[k].id != c[j].id);
        } else {
            let k = choose|k: int| 0 <= k < b.len() && b[k] == m[i];
            assert(b[k].id != c[j].id);
        }
    }
}

/// A filtered sequence's elements come from the original, so disjointness
/// carries over to both sides.
pub proof fn lemma_sub_disjoint(
    a2: Seq<MessageView>,
    a: Seq<MessageView>,
    b2: Seq<MessageView>,
    b: Seq<MessageView>,
)
    requires
        forall|x: MessageView| #[trigger] a2.contains(x) ==> a.contains(x),
        forall|x: MessageView| #[trigger] b2.contains(x) ==> b.contains(x),
        disjoint_ids(a, b),
    ensures
        disjoint_ids(a2, b2),
{
    assert forall|i: int, j: int| 0 <= i < a2.len() && 0 <= j < b2.len() implies #[trigger] a2[i].id
        != #[trigger] b2[j].id by {
        assert(a2.contains(a2[i]));
        assert(b2.contains(b2[j]));
        let ka = choose|k: int| 0 <= k < a.len() && a[k] == a2[i];
        let kb = choose|k: int| 0 <= k < b.len() && b[k] == b2[j];
        assert(a[ka].id != b[kb].id);
    }
}

} // verus!

verus! {

impl ParsedChatLog {
    /// All collected messages of the four categories, sorted ascending by
    /// id — that is, in the order their lines appeared in the log.  The
    /// result is exactly the four collections merged: its id sequence is
    /// strictly increasing, and as a multiset it equals their
    /// concatenation.
    pub fn messages_in_order_of_creation(&self) -> (r: Vec<Message>)
        requires
            self.wf(),
        ensures
            msgs_sorted(msg_views(r@)),
            msg_views(r@).to_multiset() == (self@.chat_messages + self@.global_chat_messages
                + self@.trade_chat_messages + self@.tells).to_multiset(),
            r@.len() == self@.chat_messages.len() + self@.global_chat_messages.len()
                + self@.trade_chat_messages.len() + self@.tells.len(),
    {
        let ghost cv = self@.chat_messages;
        let ghost gv = self@.global_chat_messages;
        let ghost tv = self@.trade_chat_messages;
        let ghost ev = self@.tells;
        proof {
            lemma_merge_sorted_props(cv, gv);
        }
        let m1 = merge_by_id(&self.chat_messages, &self.global_chat_messages);
        let ghost m1v = msg_views(m1@);
        proof {
            lemma_union_disjoint(m1v, cv, gv, tv);
            lemma_merge_sorted_props(m1v, tv);
        }
        let m2 = merge_by_id(&m1, &self.trade_chat_messages);
        let ghost m2v = msg_views(m2@);
        proof {
            lemma_union_disjoint(m1v, cv, gv, ev);
            lemma_union_disjoint(m2v, m1v, tv, ev);
            lemma_merge_sorted_props(m2v, ev);
        }
        let m3 = merge_by_id(&m2, &self.tells);
        proof {
            broadcast use vstd::seq_lib::group_to_multiset_ensures;

            vstd::seq_lib::lemma_multiset_commutative(cv, gv);
            vstd::seq_lib::lemma_multiset_commutative(cv + gv, tv);
            vstd::seq_lib::lemma_multiset_commutative(cv + gv + tv, ev);
            vstd::seq_lib::lemma_multiset_commutative(m1v, tv);
            vstd::seq_lib::lemma_multiset_commutative(m2v, ev);
        }
        m3
    }

    /// The messages whose contents hold the search term, matched case
    /// insensitively, sorted ascending by id.  An empty search term yields
    /// an empty result; otherwise the result is, as a multiset, exactly the
    /// matching part of the four collections' concatenation.
    pub fn messages_containing_search_term(&self, search_string: &str) -> (r: Vec<Message>)
        requires
            self.wf(),
        ensures
            search_string@.len() == 0 ==> r@.len() == 0,
            search_string@.len() > 0 ==> msgs_sorted(msg_views(r@)),
            search_string@.len() > 0 ==> msg_views(r@).to_multiset() == (self@.chat_messages
                + self@.trade_chat_messages + self@.global_chat_messages
                + self@.tells).filter(match_pred(search_string@)).to_multiset(),
    {
        let ghost cv = self@.chat_messages;
        let ghost tv = self@.trade_chat_messages;
        let ghost gv = self@.global_chat_messages;
        let ghost ev = self@.tells;
        let ghost p = match_pred(search_string@);
        if search_string.unicode_len() == 0 {
            let r: Vec<Message> = Vec::new();
            return r;
        }
        let term_lower = lowercase(search_string);
        let f1 = filter_matching(&self.chat_messages, term_lower.as_str(), Ghost(search_string@));
        let f2 = filter_matching(
            &self.trade_chat_messages,
            term_lower.as_str(),
            Ghost(search_string@),
        );
        let f3 = filter_matching(
            &self.global_chat_messages,
            term_lower.as_str(),
            Ghost(search_string@),
        );
        let f4 = filter_matching(&self.tells, term_lower.as_str(), Ghost(search_string@));
        let ghost f1v = msg_views(f1@);
        let ghost f2v = msg_views(f2@);
        let ghost f3v = msg_views(f3@);
        let ghost f4v = msg_views(f4@);
        proof {
            lemma_filter_sorted(cv, p);
            lemma_filter_sorted(tv, p);
            lemma_filter_sorted(gv, p);
            lemma_filter_sorted(ev, p);
            lemma_sub_disjoint(f1v, cv, f2v, tv);
            lemma_sub_disjoint(f1v, cv, f3v, gv);
            lemma_sub_disjoint(f1v, cv, f4v, ev);
            lemma_sub_disjoint(f2v, tv, f3v, gv);
            lemma_sub_disjoint(f2v, tv, f4v, ev);
            lemma_sub_disjoint(f3v, gv, f4v, ev);
            lemma_merge_sorted_props(f1v, f2v);
        }
        let m1 = merge_by_id(&f1, &f2);
        let ghost m1v = msg_views(m1@);
        proof {
            lemma_union_disjoint(m1v, f1v, f2v, f3v);
            lemma_merge_sorted_props(m1v, f3v);
        }
        let m2 = merge_by_id(&m1, &f3);
        let ghost m2v = msg_views(m2@);
        proof {
            lemma_union_disjoint(m1v, f1v, f2v, f4v);
            lemma_union_disjoint(m2v, m1v, f3v, f4v);
            lemma_merge_sorted_props(m2v, f4v);
        }
        let m3 = merge_by_id(&m2, &f4);
        proof {
            broadcast use vstd::seq_lib::group_to_multiset_ensures;

            Seq::filter_distributes_over_add(cv, tv, p);
            Seq::filter_distributes_over_add(cv + tv, gv, p);
            Seq::filter_distributes_over_add(cv + tv + gv, ev, p);
            vstd::seq_lib::lemma_multiset_commutative(f1v, f2v);
            vstd::seq_lib::lemma_multiset_commutative(f1v + f2v, f3v);
            vstd::seq_lib::lemma_multiset_commutative(f1v + f2v + f3v, f4v);
            vstd::seq_lib::lemma_multiset_commutative(m1v, f3v);
            vstd::seq_lib::lemma_multiset_commutative(m2v, f4v);
            assert((cv + tv + gv + ev).filter(p) == f1v + f2v + f3v + f4v);
            assert(msg_views(m3@).to_multiset() == (f1v + f2v + f3v + f4v).to_multiset()) by {
                assert(msg_views(m3@).to_multiset() == m2v.to_multiset().add(f4v.to_multiset()));
                assert(m2v.to_multiset() == m1v.to_multiset().add(f3v.to_multiset()));
                assert(m1v.to_multiset() == f1v.to_multiset().add(f2v.to_multiset()));
                assert((f1v + f2v + f3v + f4v).to_multiset() == (f1v + f2v
                    + f3v).to_multiset().add(f4v.to_multiset()));
                assert((f1v + f2v + f3v).to_multiset() == (f1v + f2v).to_multiset().add(
                    f3v.to_multiset(),
                ));
                assert((f1v + f2v).to_multiset() == f1v.to_multiset().add(f2v.to_multiset()));
            }
        }
        m3
    }
}

} // verus!
