//! The decisions and the log that holds them.

use vstd::prelude::*;
use serde_json::Value;
use std::time::SystemTime;
use crate::external::system_now;
use crate::id::{id_text, lemma_id_text_injective, new_id};

verus! {

/// One recorded branch decision.
#[derive(Debug, Clone, PartialEq)]
pub struct Decision {
    /// Unique id for this decision.
    pub id: String,
    /// When the decision was recorded.
    pub timestamp: SystemTime,
    /// All options that were considered.
    pub options: Vec<String>,
    /// The chosen option.
    pub chosen: String,
    /// Why this option was chosen.
    pub rationale: String,
    /// The observed outcome, if set later.
    pub outcome: Option<String>,
    /// Arbitrary structured metadata.
    pub meta: Value,
}

impl Decision {
    /// The chosen option is, as text, one of the listed options.
    pub open spec fn lists_chosen(&self) -> bool {
        exists|i: int| 0 <= i < self.options@.len() && #[trigger] self.options@[i]@ == self.chosen@
    }

    /// `true` when the chosen option appears in the listed options.
    ///
    /// A `false` result flags a hallucinated branch: the agent committed to an
    /// option it never listed as a candidate.
    pub fn chose_listed_option(&self) -> (listed: bool)
        ensures
            listed == self.lists_chosen(),
    {
        let n = self.options.len();
        for i in 0..n
            invariant
                n == self.options@.len(),
                forall|j: int| 0 <= j < i ==> #[trigger] self.options@[j]@ != self.chosen@,
        {
            if self.options[i] == self.chosen {
                return true;
            }
        }
        false
    }
}

/// A decision's chosen option is listed exactly when some listed option, at any
/// position, equals it as text: a choice equal to any option is listed, and a
/// listed choice equals one of the options.
pub proof fn lemma_listed_iff_some_option_equals(d: Decision, i: int)
    ensures
        0 <= i < d.options@.len() && d.options@[i]@ == d.chosen@ ==> d.lists_chosen(),
        d.lists_chosen() ==> exists|j: int| 0 <= j < d.options@.len() && #[trigger] d.options@[j]@ == d.chosen@,
        !d.lists_chosen() ==> forall|j: int| 0 <= j < d.options@.len() ==> #[trigger] d.options@[j]@ != d.chosen@,
{
    if 0 <= i < d.options@.len() && d.options@[i]@ == d.chosen@ {
        assert(d.options@[i]@ == d.chosen@);
    }
}

/// A decision of a log is among its hallucinated ones exactly when its chosen option
/// equals none of its options, at any position.
pub proof fn lemma_hallucinated_membership(s: Seq<Decision>, k: int)
    requires
        0 <= k < s.len(),
    ensures
        hallucinated_of(s).contains(s[k]) <==> forall|i: int|
            0 <= i < s[k].options@.len() ==> #[trigger] s[k].options@[i]@ != s[k].chosen@,
{
    let pred = |d: Decision| !d.lists_chosen();
    let h = s.filter(pred);
    assert(h == hallucinated_of(s));
    if h.contains(s[k]) {
        let m = choose|m: int| 0 <= m < h.len() && h[m] == s[k];
        s.lemma_filter_pred(pred, m);
        assert(!s[k].lists_chosen());
    }
    if forall|i: int| 0 <= i < s[k].options@.len() ==> #[trigger] s[k].options@[i]@ != s[k].chosen@ {
        assert(pred(s[k]));
        s.lemma_filter_contains(pred, k);
    } else {
        let i = choose|i: int| 0 <= i < s[k].options@.len() && #[trigger] s[k].options@[i]@ == s[k].chosen@;
        lemma_listed_iff_some_option_equals(s[k], i);
        if h.contains(s[k]) {
            let m = choose|m: int| 0 <= m < h.len() && h[m] == s[k];
            s.lemma_filter_pred(pred, m);
        }
    }
}

/// The decision `d` with its outcome set to `outcome`.
pub open spec fn with_outcome(d: Decision, outcome: String) -> Decision {
    Decision { outcome: Some(outcome), ..d }
}

/// The decision that `add` records: the given fields, and no outcome yet.
pub open spec fn fresh_decision(
    id: String,
    timestamp: SystemTime,
    options: Vec<String>,
    chosen: String,
    rationale: String,
    meta: Value,
) -> Decision {
    Decision { id, timestamp, options, chosen, rationale, outcome: None, meta }
}

/// `e` is `d` with perhaps another outcome: every other field is the same.
pub open spec fn same_but_outcome(d: Decision, e: Decision) -> bool {
    e == Decision { outcome: e.outcome, ..d }
}

/// `after` keeps every decision of `before` at its place, changed at most in its
/// outcome, and may hold more decisions at the end: the log only grows.
pub open spec fn extends(before: Seq<Decision>, after: Seq<Decision>) -> bool {
    &&& before.len() <= after.len()
    &&& forall|i: int| 0 <= i < before.len() ==> #[trigger] same_but_outcome(before[i], after[i])
}

/// Some decision of `s` has the id `id`.
pub open spec fn has_id(s: Seq<Decision>, id: Seq<char>) -> bool {
    exists|i: int| 0 <= i < s.len() && #[trigger] s[i].id@ == id
}

/// `i` is the first position of `s` whose decision has the id `id`.
pub open spec fn is_first_with_id(s: Seq<Decision>, id: Seq<char>, i: int) -> bool {
    &&& 0 <= i < s.len()
    &&& s[i].id@ == id
    &&& forall|j: int| 0 <= j < i ==> #[trigger] s[j].id@ != id
}

/// The decisions of `s` that have no outcome yet, in order.
pub open spec fn pending_of(s: Seq<Decision>) -> Seq<Decision> {
    s.filter(|d: Decision| d.outcome is None)
}

/// The decisions of `s` whose chosen option was never listed, in order.
pub open spec fn hallucinated_of(s: Seq<Decision>) -> Seq<Decision> {
    s.filter(|d: Decision| !d.lists_chosen())
}

/// Append-only log of agent branch decisions.
#[derive(Debug, Clone, PartialEq)]
pub struct DecisionLog {
    /// Recorded decisions, in insertion order.
    pub decisions: Vec<Decision>,
}

impl Default for DecisionLog {
    fn default() -> (log: Self)
        ensures
            log.decisions@.len() == 0,
    {
        DecisionLog { decisions: Vec::new() }
    }
}

impl DecisionLog {
    /// Create an empty log.
    pub fn new() -> (log: Self)
        ensures
            log.decisions@.len() == 0,
    {
        DecisionLog { decisions: Vec::new() }
    }

    /// Record a decision and return its generated id.
    ///
    /// The decision goes to the end of the log, with no outcome; its id carries the
    /// time of the system clock and the position the decision takes in the log.
    /// Ids are thus unique within one log: two logs number their decisions each
    /// from 0, and only the clock keeps their ids apart.
    pub fn add(&mut self, options: Vec<String>, chosen: String, rationale: String, meta: Value) -> (id: String)
        ensures
            exists|t: SystemTime|
                final(self).decisions@ == old(self).decisions@.push(
                    #[trigger] fresh_decision(id, t, options, chosen, rationale, meta),
                ),
            exists|ts: u64| id@ == id_text(ts as nat, old(self).decisions@.len()),
            extends(old(self).decisions@, final(self).decisions@),
    {
        let seq = self.decisions.len() as u64;
        let id = new_id(seq);
        let timestamp = system_now();
        self.add_recorded(id.clone(), timestamp, options, chosen, rationale, meta);
        id
    }

    /// Record a decision under an id and a time stamp that the caller has made (with
    /// `new_id` and the system clock, say, and a sequence number of its own).
    ///
    /// The decision goes to the end of the log, with no outcome.
    pub fn add_recorded(
        &mut self,
        id: String,
        timestamp: SystemTime,
        options: Vec<String>,
        chosen: String,
        rationale: String,
        meta: Value,
    )
        ensures
            final(self).decisions@ == old(self).decisions@.push(
                fresh_decision(id, timestamp, options, chosen, rationale, meta),
            ),
            extends(old(self).decisions@, final(self).decisions@),
    {
        let d = Decision { id, timestamp, options, chosen, rationale, outcome: None, meta };
        self.decisions.push(d);
        assert forall|i: int| 0 <= i < old(self).decisions@.len() implies #[trigger] same_but_outcome(
            old(self).decisions@[i],
            self.decisions@[i],
        ) by {
            assert(self.decisions@[i] == old(self).decisions@[i]);
        }
    }

    /// Set the outcome for an existing decision by id. Returns `true` if found.
    ///
    /// Only the first decision with that id changes.
    pub fn set_outcome(&mut self, id: &str, outcome: String) -> (found: bool)
        ensures
            found == has_id(old(self).decisions@, id@),
            found ==> exists|i: int|
                is_first_with_id(old(self).decisions@, id@, i) && final(self).decisions@
                    == old(self).decisions@.update(i, with_outcome(old(self).decisions@[i], outcome)),
            !found ==> final(self).decisions@ == old(self).decisions@,
            extends(old(self).decisions@, final(self).decisions@),
    {
        let key = id.to_owned();
        let n = self.decisions.len();
        for i in 0..n
            invariant
                n == self.decisions@.len(),
                key@ == id@,
                self.decisions@ == old(self).decisions@,
                forall|j: int| 0 <= j < i ==> #[trigger] self.decisions@[j].id@ != id@,
        {
            if self.decisions[i].id == key {
                self.decisions[i].outcome = Some(outcome);
                assert(is_first_with_id(old(self).decisions@, id@, i as int));
                assert(self.decisions@ =~= old(self).decisions@.update(
                    i as int,
                    with_outcome(old(self).decisions@[i as int], outcome),
                ));
                return true;
            }
        }
        false
    }

    /// Find a decision by id: the first one that has it.
    pub fn find_by_id(&self, id: &str) -> (found: Option<&Decision>)
        ensures
            found is None <==> !has_id(self.decisions@, id@),
            found matches Some(d) ==> exists|i: int|
                is_first_with_id(self.decisions@, id@, i) && *d == self.decisions@[i],
    {
        let key = id.to_owned();
        let n = self.decisions.len();
        for i in 0..n
            invariant
                n == self.decisions@.len(),
                key@ == id@,
                forall|j: int| 0 <= j < i ==> #[trigger] self.decisions@[j].id@ != id@,
        {
            if self.decisions[i].id == key {
                assert(is_first_with_id(self.decisions@, id@, i as int));
                return Some(&self.decisions[i]);
            }
        }
        None
    }

    /// The most recently recorded decision, if any.
    pub fn last(&self) -> (d: Option<&Decision>)
        ensures
            self.decisions@.len() == 0 ==> d is None,
            self.decisions@.len() > 0 ==> (d matches Some(d) && *d == self.decisions@.last()),
    {
        self.decisions.as_slice().last()
    }

    /// Number of recorded decisions.
    pub fn len(&self) -> (n: usize)
        ensures
            n == self.decisions@.len(),
    {
        self.decisions.len()
    }

    /// `true` when no decisions have been recorded.
    pub fn is_empty(&self) -> (empty: bool)
        ensures
            empty <==> self.decisions@.len() == 0,
    {
        self.decisions.len() == 0
    }

    /// The decisions whose chosen option was never listed as a candidate, in
    /// insertion order.
    pub fn hallucinated(&self) -> (found: Vec<&Decision>)
        ensures
            found@.len() == hallucinated_of(self.decisions@).len(),
            forall|k: int| 0 <= k < found@.len() ==> *#[trigger] found@[k] == hallucinated_of(self.decisions@)[k],
    {
        let mut found: Vec<&Decision> = Vec::new();
        let n = self.decisions.len();
        for i in 0..n
            invariant
                n == self.decisions@.len(),
                found@.len() == hallucinated_of(self.decisions@.take(i as int)).len(),
                forall|k: int| 0 <= k < found@.len() ==> *#[trigger] found@[k] == hallucinated_of(self.decisions@.take(i as int))[k],
        {
            let ghost pre = self.decisions@.take(i as int);
            let ghost next = self.decisions@.take(i + 1);
            assert(next.drop_last() =~= pre);
            assert(next.last() == self.decisions@[i as int]);
            reveal_with_fuel(Seq::filter, 1);
            assert(hallucinated_of(next) == if !self.decisions@[i as int].lists_chosen() {
                hallucinated_of(pre).push(self.decisions@[i as int])
            } else {
                hallucinated_of(pre)
            });
            let d = &self.decisions[i];
            if !d.chose_listed_option() {
                found.push(d);
            }
        }
        assert(self.decisions@.take(n as int) =~= self.decisions@);
        found
    }

    /// The decisions that have no outcome yet, in insertion order.
    pub fn pending(&self) -> (found: Vec<&Decision>)
        ensures
            found@.len() == pending_of(self.decisions@).len(),
            forall|k: int| 0 <= k < found@.len() ==> *#[trigger] found@[k] == pending_of(self.decisions@)[k],
    {
        let mut found: Vec<&Decision> = Vec::new();
        let n = self.decisions.len();
        for i in 0..n
            invariant
                n == self.decisions@.len(),
                found@.len() == pending_of(self.decisions@.take(i as int)).len(),
                forall|k: int| 0 <= k < found@.len() ==> *#[trigger] found@[k] == pending_of(self.decisions@.take(i as int))[k],
        {
            let ghost pre = self.decisions@.take(i as int);
            let ghost next = self.decisions@.take(i + 1);
            assert(next.drop_last() =~= pre);
            assert(next.last() == self.decisions@[i as int]);
            reveal_with_fuel(Seq::filter, 1);
            assert(pending_of(next) == if self.decisions@[i as int].outcome is None {
                pending_of(pre).push(self.decisions@[i as int])
            } else {
                pending_of(pre)
            });
            let d = &self.decisions[i];
            if d.outcome.is_none() {
                found.push(d);
            }
        }
        assert(self.decisions@.take(n as int) =~= self.decisions@);
        found
    }

    /// The recorded decisions in insertion order, one after the other.
    pub fn iter(&self) -> (it: std::slice::Iter<'_, Decision>)
        ensures
            vstd::std_specs::iter::IteratorSpec::remaining(&it) == self.decisions@.as_ref(),
    {
        broadcast use vstd::std_specs::slice::axiom_spec_slice_iter;
        self.decisions.as_slice().iter()
    }
}


impl<'a> IntoIterator for &'a DecisionLog {
    type Item = &'a Decision;

    type IntoIter = std::slice::Iter<'a, Decision>;

    /// The recorded decisions in insertion order (`for d in &log`).
    fn into_iter(self) -> (it: std::slice::Iter<'a, Decision>)
        ensures
            vstd::std_specs::iter::IteratorSpec::remaining(&it) == self.decisions@.as_ref(),
    {
        self.iter()
    }
}

/// Every log extends itself.
pub proof fn lemma_extends_reflexive(s: Seq<Decision>)
    ensures
        extends(s, s),
{
}

/// A log that extends one that extends a third extends the third: over any run of
/// `add` and `set_outcome` calls the log only grows, and its decisions change at most
/// in their outcomes.
pub proof fn lemma_extends_transitive(a: Seq<Decision>, b: Seq<Decision>, c: Seq<Decision>)
    requires
        extends(a, b),
        extends(b, c),
    ensures
        extends(a, c),
{
    assert forall|i: int| 0 <= i < a.len() implies #[trigger] same_but_outcome(a[i], c[i]) by {
        assert(same_but_outcome(a[i], b[i]));
        assert(same_but_outcome(b[i], c[i]));
    }
}

/// `id` is an id made for position `n` of a log, at some time stamp.
pub open spec fn id_made_for(id: Seq<char>, n: nat) -> bool {
    exists|t: u64| id == id_text(t as nat, n)
}

/// When every decision of a log carries an id made for its own position (as those
/// that `add` made on this log do), the id that `add` returns next is new to the log,
/// and looking it up finds the decision just added.
pub proof fn lemma_added_id_is_fresh(before: Seq<Decision>, after: Seq<Decision>)
    requires
        after.len() == before.len() + 1,
        after.drop_last() == before,
        after.len() <= u64::MAX,
        forall|j: int| 0 <= j < before.len() ==> #[trigger] id_made_for(before[j].id@, j as nat),
        exists|t: u64| after.last().id@ == id_text(t as nat, before.len()),
    ensures
        !has_id(before, after.last().id@),
        is_first_with_id(after, after.last().id@, before.len() as int),
{
    assert forall|j: int| 0 <= j < before.len() implies #[trigger] before[j].id@ != after.last().id@ by {
        assert(id_made_for(before[j].id@, j as nat));
        lemma_ids_of_positions_differ(before[j].id@, after.last().id@, j as nat, before.len());
    }
    lemma_find_appended(before, after);
}

/// Ids handed out at two different positions of a log differ, whatever the clock
/// read each time: the ids that `add` returns for successive calls on one log are
/// distinct.
pub proof fn lemma_ids_of_positions_differ(id1: Seq<char>, id2: Seq<char>, n1: nat, n2: nat)
    requires
        n1 != n2,
        n1 <= u64::MAX,
        n2 <= u64::MAX,
        exists|t: u64| id1 == id_text(t as nat, n1),
        exists|t: u64| id2 == id_text(t as nat, n2),
    ensures
        id1 != id2,
{
    let t1 = choose|t: u64| id1 == id_text(t as nat, n1);
    let t2 = choose|t: u64| id2 == id_text(t as nat, n2);
    if id1 == id2 {
        lemma_id_text_injective(t1, n1 as u64, t2, n2 as u64);
    }
}

/// After a decision is appended, looking up its id finds it, unless an earlier
/// decision already had that id.
pub proof fn lemma_find_appended(before: Seq<Decision>, after: Seq<Decision>)
    requires
        after.len() == before.len() + 1,
        after.drop_last() == before,
        !has_id(before, after.last().id@),
    ensures
        is_first_with_id(after, after.last().id@, before.len() as int),
{
    assert forall|j: int| 0 <= j < before.len() implies #[trigger] after[j].id@ != after.last().id@ by {
        assert(after[j] == before[j]);
    }
}

/// Once the outcome of the first decision with an id is set, looking up that id
/// finds the same position, now holding that outcome.
pub proof fn lemma_find_after_set_outcome(before: Seq<Decision>, id: Seq<char>, i: int, outcome: String)
    requires
        is_first_with_id(before, id, i),
    ensures
        is_first_with_id(before.update(i, with_outcome(before[i], outcome)), id, i),
        before.update(i, with_outcome(before[i], outcome))[i].outcome == Some(outcome),
{
    let after = before.update(i, with_outcome(before[i], outcome));
    assert forall|j: int| 0 <= j < i implies #[trigger] after[j].id@ != id by {
        assert(after[j] == before[j]);
    }
}

/// A decision appended with no outcome joins the pending ones at the end.
pub proof fn lemma_pending_after_append(before: Seq<Decision>, after: Seq<Decision>)
    requires
        after.len() == before.len() + 1,
        after.drop_last() == before,
        after.last().outcome is None,
    ensures
        pending_of(after) == pending_of(before).push(after.last()),
{
    reveal_with_fuel(Seq::filter, 1);
}

/// A decision appended whose chosen option is not listed joins the hallucinated
/// ones at the end; one whose chosen option is listed leaves them alone.
pub proof fn lemma_hallucinated_after_append(before: Seq<Decision>, after: Seq<Decision>)
    requires
        after.len() == before.len() + 1,
        after.drop_last() == before,
    ensures
        hallucinated_of(after) == if after.last().lists_chosen() {
            hallucinated_of(before)
        } else {
            hallucinated_of(before).push(after.last())
        },
{
    reveal_with_fuel(Seq::filter, 1);
}

/// Setting an outcome leaves the hallucinated decisions as they were, apart from
/// the new outcome of the one it changed: the same number of them, each the same
/// decision but perhaps for its outcome.
pub proof fn lemma_hallucinated_after_set_outcome(before: Seq<Decision>, i: int, outcome: String)
    requires
        0 <= i < before.len(),
    ensures
        hallucinated_of(before.update(i, with_outcome(before[i], outcome))).len()
            == hallucinated_of(before).len(),
        forall|k: int|
            0 <= k < hallucinated_of(before).len() ==> same_but_outcome(
                #[trigger] hallucinated_of(before)[k],
                hallucinated_of(before.update(i, with_outcome(before[i], outcome)))[k],
            ),
    decreases before.len(),
{
    reveal_with_fuel(Seq::filter, 1);
    let after = before.update(i, with_outcome(before[i], outcome));
    let changed = with_outcome(before[i], outcome);
    assert(changed.options == before[i].options && changed.chosen == before[i].chosen);
    assert(changed.lists_chosen() == before[i].lists_chosen());
    let hb = hallucinated_of(before);
    let ha = hallucinated_of(after);
    if i == before.len() - 1 {
        let b0 = before.drop_last();
        assert(after.drop_last() =~= b0);
        let h0 = hallucinated_of(b0);
        assert forall|k: int| 0 <= k < hb.len() implies same_but_outcome(#[trigger] hb[k], ha[k]) by {
            if k < h0.len() {
                assert(hb[k] == h0[k]);
                assert(ha[k] == h0[k]);
            } else {
                assert(hb[k] == before[i]);
                assert(ha[k] == changed);
            }
        }
    } else {
        let b0 = before.drop_last();
        let a0 = b0.update(i, with_outcome(b0[i], outcome));
        lemma_hallucinated_after_set_outcome(b0, i, outcome);
        assert(after.drop_last() =~= a0);
        assert(after.last() == before.last());
        let hb0 = hallucinated_of(b0);
        let ha0 = hallucinated_of(a0);
        assert forall|k: int| 0 <= k < hb.len() implies same_but_outcome(#[trigger] hb[k], ha[k]) by {
            if k < hb0.len() {
                assert(hb[k] == hb0[k]);
                assert(ha[k] == ha0[k]);
                assert(same_but_outcome(hb0[k], ha0[k]));
            } else {
                assert(hb[k] == before.last());
                assert(ha[k] == after.last());
            }
        }
    }
}

/// Setting the outcome of a decision takes it off the pending ones if it was
/// pending, and leaves their number alone otherwise.
pub proof fn lemma_pending_after_set_outcome(before: Seq<Decision>, i: int, outcome: String)
    requires
        0 <= i < before.len(),
    ensures
        pending_of(before.update(i, with_outcome(before[i], outcome))).len() == if before[i].outcome is None {
            pending_of(before).len() - 1
        } else {
            pending_of(before).len() as int
        },
    decreases before.len(),
{
    reveal_with_fuel(Seq::filter, 1);
    let after = before.update(i, with_outcome(before[i], outcome));
    if i == before.len() - 1 {
        assert(after.drop_last() =~= before.drop_last());
    } else {
        let b0 = before.drop_last();
        lemma_pending_after_set_outcome(b0, i, outcome);
        assert(after.drop_last() =~= b0.update(i, with_outcome(b0[i], outcome)));
        assert(after.last() == before.last());
    }
}

} // verus!
