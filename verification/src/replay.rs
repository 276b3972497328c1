//! The replay engine: validates a trace, walks its transactions in order,
//! drives the document store and the CRDT document, and checks the final
//! text against the expected content.
use vstd::prelude::*;
use std::collections::HashMap;
use vstd::string::StrSliceExecFns;
use crate::doc::{
    doc_commit, doc_merge, doc_read_text, doc_save, doc_splice, doc_text, has_text_obj,
    new_text_doc, set_doc_actor,
};
use crate::history::{
    EditHistory, HistoryEntryView, SimpleTextOp, SENTINEL_ID, effective_parents,
    id_declared_before, consumption_matches, linear_chain, no_sentinel_ids, occurrences_from,
    parents_resolve, takes_from, terminals_from, unique_ids, well_formed_trace,
    lemma_linear_chain_one_root, lemma_occurrences_monotone, lemma_takes_monotone,
    lemma_terminal_exists,
};
use crate::store::DocStore;

verus! {

broadcast use vstd::std_specs::hash::group_hash_axioms;

/// Why a replay was aborted: a trace whose initial content is not empty,
/// a trace whose graph structure or consumer counts are inconsistent, a
/// merge of two parent states that the document handle rejects, a splice
/// that falls outside the current text, and a final text that differs
/// from the declared one.  The last three are surfaced from the document
/// handle; the replay driven by this library derives each transaction's
/// actor from its unique identifier, which keeps its own merges free of
/// the rejected actor collisions.
#[derive(Debug)]
pub enum ReplayError {
    NonEmptyStart,
    BadStructure,
    MergeConflict,
    SpliceOutOfBounds,
    TextMismatch { actual: String },
}

/// What a successful replay produced: the final text, the serialized form
/// of the final document, and how many document forks the store performed.
#[derive(Debug)]
pub struct ReplayOutcome {
    pub final_text: String,
    pub saved: Vec<u8>,
    pub forks: u64,
}

/// The text after one splice: delete `del` code points at `pos`, then
/// insert `ins` there.
pub open spec fn splice_result(t: Seq<char>, pos: nat, del: nat, ins: Seq<char>) -> Seq<char> {
    t.subrange(0, pos as int) + ins + t.subrange((pos + del) as int, t.len() as int)
}

/// A splice is in bounds when the deleted range lies within the text.
pub open spec fn op_in_bounds(t: Seq<char>, op: (nat, nat, Seq<char>)) -> bool {
    op.0 + op.1 <= t.len()
}

/// The text after applying the splices at positions `k` and later, in
/// order, or nothing if one of them falls out of bounds.
pub open spec fn apply_ops_from(t: Seq<char>, ops: Seq<(nat, nat, Seq<char>)>, k: int) -> Option<
    Seq<char>,
>
    decreases ops.len() - k,
{
    if k < 0 || k >= ops.len() {
        Some(t)
    } else if !op_in_bounds(t, ops[k]) {
        None
    } else {
        apply_ops_from(splice_result(t, ops[k].0, ops[k].1, ops[k].2), ops, k + 1)
    }
}

/// The text after applying all the splices in order, if each is in bounds
/// for the text it meets.
pub open spec fn apply_ops_spec(t: Seq<char>, ops: Seq<(nat, nat, Seq<char>)>) -> Option<
    Seq<char>,
> {
    apply_ops_from(t, ops, 0)
}

/// Applies a transaction's splices to the working document in order.  On
/// success the document's text is exactly the specified result; the first
/// out-of-bounds splice aborts instead.
fn apply_entry_ops(
    d: &mut automerge::AutoCommit,
    obj: &automerge::ObjId,
    ops: &Vec<SimpleTextOp>,
) -> (r: Result<(), ReplayError>)
    requires
        has_text_obj(*old(d), *obj),
    ensures
        has_text_obj(*final(d), *obj),
        match apply_ops_spec(
            doc_text(*old(d), *obj),
            ops@.map_values(|op: SimpleTextOp| op@),
        ) {
            Some(t) => r is Ok && doc_text(*final(d), *obj) == t,
            None => (r matches Err(ReplayError::SpliceOutOfBounds)),
        },
{
    let ghost opsv = ops@.map_values(|op: SimpleTextOp| op@);
    let mut k: usize = 0;
    while k < ops.len()
        invariant
            k <= ops.len(),
            opsv == ops@.map_values(|op: SimpleTextOp| op@),
            has_text_obj(*d, *obj),
            apply_ops_from(doc_text(*old(d), *obj), opsv, 0) == apply_ops_from(
                doc_text(*d, *obj),
                opsv,
                k as int,
            ),
        decreases ops.len() - k,
    {
        let op = &ops[k];
        let cur = doc_read_text(d, obj);
        let len = cur.as_str().unicode_len();
        if op.0 > len || op.1 > len - op.0 {
            assert(!op_in_bounds(doc_text(*d, *obj), opsv[k as int]));
            return Err(ReplayError::SpliceOutOfBounds);
        }
        doc_splice(d, obj, op.0, op.1, op.2.as_str());
        k = k + 1;
    }
    Ok(())
}

/// Checks the structural conditions of the trace up front: empty initial
/// content, exactly one terminal transaction, distinct identifiers, a
/// topological order, and consumer counts that match the graph.  On
/// success it returns the sentinel's consumer count, the number of copies
/// of the initial empty document the trace consumes.
#[verifier::loop_isolation(false)]
fn validate(h: &EditHistory) -> (r: Result<usize, ReplayError>)
    ensures
        r is Ok <==> h@.start_content.len() == 0 && well_formed_trace(h@.txns),
        (r matches Err(ReplayError::NonEmptyStart)) <==> h@.start_content.len() != 0,
        (r matches Err(ReplayError::BadStructure)) <==> (h@.start_content.len() == 0
            && !well_formed_trace(h@.txns)),
        r matches Ok(seed) ==> seed == takes_from(h@.txns, 0, SENTINEL_ID),
{
    let ghost txv = h@.txns;
    if !h.start_content.as_str().is_empty() {
        return Err(ReplayError::NonEmptyStart);
    }
    let n = h.txns.len();

    let mut terminals: usize = 0;
    let mut i: usize = 0;
    while i < n
        invariant
            i <= n,
            n == h.txns.len(),
            txv == h@.txns,
            terminals <= i,
            terminals + terminals_from(txv, i as int) == terminals_from(txv, 0),
        decreases n - i,
    {
        if h.txns[i].num_children == 0 {
            terminals = terminals + 1;
        }
        i = i + 1;
    }
    if terminals != 1 {
        return Err(ReplayError::BadStructure);
    }

    let mut seen: HashMap<usize, ()> = HashMap::new();
    let mut i: usize = 0;
    while i < n
        invariant
            i <= n,
            n == h.txns.len(),
            txv == h@.txns,
            forall|id: usize| #[trigger]
                seen@.contains_key(id) <==> id_declared_before(txv, i as int, id),
            forall|j: int, k: int| 0 <= j < k < i ==> txv[j].id != txv[k].id,
            forall|j: int| 0 <= j < i ==> txv[j].id != SENTINEL_ID,
            forall|ii: int, k: int|
                0 <= ii < i && 0 <= k < txv[ii].parents.len() ==> txv[ii].parents[k] == SENTINEL_ID
                    || id_declared_before(txv, ii, txv[ii].parents[k]),
        decreases n - i,
    {
        let pn = h.txns[i].parents.len();
        let mut k: usize = 0;
        while k < pn
            invariant
                i < n,
                k <= pn,
                n == h.txns.len(),
                txv == h@.txns,
                pn == txv[i as int].parents.len(),
                forall|id: usize| #[trigger]
                    seen@.contains_key(id) <==> id_declared_before(txv, i as int, id),
                forall|kk: int|
                    0 <= kk < k ==> txv[i as int].parents[kk] == SENTINEL_ID
                        || id_declared_before(txv, i as int, txv[i as int].parents[kk]),
            decreases pn - k,
        {
            let p = h.txns[i].parents[k];
            if p != SENTINEL_ID {
                if !seen.contains_key(&p) {
                    assert(!parents_resolve(txv));
                    return Err(ReplayError::BadStructure);
                }
            }
            k = k + 1;
        }
        let idv = h.txns[i].id;
        if idv == SENTINEL_ID {
            assert(!no_sentinel_ids(txv));
            return Err(ReplayError::BadStructure);
        }
        if seen.contains_key(&idv) {
            assert(!unique_ids(txv));
            return Err(ReplayError::BadStructure);
        }
        seen.insert(idv, ());
        i = i + 1;
    }
    assert(unique_ids(txv));
    assert(no_sentinel_ids(txv));
    assert(parents_resolve(txv));

    let mut j: usize = 0;
    while j < n
        invariant
            j <= n,
            n == h.txns.len(),
            txv == h@.txns,
            no_sentinel_ids(txv),
            forall|jj: int|
                0 <= jj < j ==> takes_from(txv, jj + 1, txv[jj].id) == txv[jj].num_children,
        decreases n - j,
    {
        let id = h.txns[j].id;
        let nc = h.txns[j].num_children;
        let mut acc: usize = 0;
        let mut k: usize = j + 1;
        while k < n
            invariant
                j < n,
                j + 1 <= k <= n,
                n == h.txns.len(),
                txv == h@.txns,
                no_sentinel_ids(txv),
                id == txv[j as int].id,
                nc == txv[j as int].num_children,
                acc <= nc,
                acc + takes_from(txv, k as int, id) == takes_from(txv, j + 1, id),
            decreases n - k,
        {
            let ghost effk = effective_parents(txv[k as int]);
            proof {
                assert(takes_from(txv, k as int, id) == occurrences_from(effk, 0, id)
                    + takes_from(txv, k + 1, id));
            }
            let pn = h.txns[k].parents.len();
            if pn == 0 {
                proof {
                    assert(effk =~= seq![SENTINEL_ID]);
                    assert(occurrences_from(effk, 1, id) == 0);
                    assert(occurrences_from(effk, 0, id) == 0);
                }
            } else {
                let mut l: usize = 0;
                while l < pn
                    invariant
                        j < n,
                        j + 1 <= k < n,
                        l <= pn,
                        n == h.txns.len(),
                        txv == h@.txns,
                        no_sentinel_ids(txv),
                        id == txv[j as int].id,
                        nc == txv[j as int].num_children,
                        pn == txv[k as int].parents.len(),
                        pn > 0,
                        effk == effective_parents(txv[k as int]),
                        effk == txv[k as int].parents,
                        acc <= nc,
                        acc + occurrences_from(effk, l as int, id) + takes_from(txv, k + 1, id)
                            == takes_from(txv, j + 1, id),
                    decreases pn - l,
                {
                    if h.txns[k].parents[l] == id {
                        if acc == nc {
                            proof {
                                assert(occurrences_from(effk, l as int, id) >= 1);
                                assert(takes_from(txv, j + 1, id) > nc);
                                assert(!consumption_matches(txv));
                            }
                            return Err(ReplayError::BadStructure);
                        }
                        acc = acc + 1;
                    }
                    l = l + 1;
                }
            }
            k = k + 1;
        }
        if acc != nc {
            assert(takes_from(txv, j + 1, id) == acc);
            assert(!consumption_matches(txv));
            return Err(ReplayError::BadStructure);
        }
        j = j + 1;
    }
    assert(consumption_matches(txv));

    let mut seed: usize = 0;
    let mut i: usize = 0;
    while i < n
        invariant
            i <= n,
            n == h.txns.len(),
            txv == h@.txns,
            seed + takes_from(txv, i as int, SENTINEL_ID) == takes_from(txv, 0, SENTINEL_ID),
        decreases n - i,
    {
        let ghost effi = effective_parents(txv[i as int]);
        proof {
            assert(takes_from(txv, i as int, SENTINEL_ID) == occurrences_from(
                effi,
                0,
                SENTINEL_ID,
            ) + takes_from(txv, i + 1, SENTINEL_ID));
        }
        let pn = h.txns[i].parents.len();
        if pn == 0 {
            proof {
                assert(effi =~= seq![SENTINEL_ID]);
                assert(occurrences_from(effi, 1, SENTINEL_ID) == 0);
                assert(occurrences_from(effi, 0, SENTINEL_ID) == 1);
            }
            if seed == usize::MAX {
                proof {
                    assert(takes_from(txv, 0, SENTINEL_ID) >= usize::MAX + 1);
                }
                return Err(ReplayError::BadStructure);
            }
            seed = seed + 1;
        } else {
            let mut l: usize = 0;
            while l < pn
                invariant
                    i < n,
                    l <= pn,
                    n == h.txns.len(),
                    txv == h@.txns,
                    pn == txv[i as int].parents.len(),
                    pn > 0,
                    effi == effective_parents(txv[i as int]),
                    effi == txv[i as int].parents,
                    seed + occurrences_from(effi, l as int, SENTINEL_ID) + takes_from(
                        txv,
                        i + 1,
                        SENTINEL_ID,
                    ) == takes_from(txv, 0, SENTINEL_ID),
                decreases pn - l,
            {
                if h.txns[i].parents[l] == SENTINEL_ID {
                    if seed == usize::MAX {
                        proof {
                            assert(occurrences_from(effi, l as int, SENTINEL_ID) >= 1);
                            assert(takes_from(txv, 0, SENTINEL_ID) >= usize::MAX + 1);
                        }
                        return Err(ReplayError::BadStructure);
                    }
                    seed = seed + 1;
                }
                l = l + 1;
            }
        }
        i = i + 1;
    }
    if seed == usize::MAX {
        return Err(ReplayError::BadStructure);
    }
    Ok(seed)
}

/// Every transaction consumes at most one parent state: the trace never
/// merges, so the text of every produced state is determined by the trace
/// alone.
pub open spec fn merge_free(txns: Seq<HistoryEntryView>) -> bool {
    forall|i: int| 0 <= i < txns.len() ==> txns[i].parents.len() <= 1
}

/// The texts produced while replaying a merge-free trace: after the first
/// `i` transactions, a map from each produced identifier (the sentinel
/// included) to its text, or nothing once some splice has fallen out of
/// bounds.
pub open spec fn sim_texts(txns: Seq<HistoryEntryView>, i: int) -> Option<Map<usize, Seq<char>>>
    decreases i,
{
    if i <= 0 {
        Some(Map::<usize, Seq<char>>::empty().insert(SENTINEL_ID, Seq::empty()))
    } else {
        match sim_texts(txns, i - 1) {
            None => None,
            Some(m) => {
                let e = txns[i - 1];
                match apply_ops_spec(m[effective_parents(e)[0]], e.ops) {
                    None => None,
                    Some(t) => Some(m.insert(e.id, t)),
                }
            },
        }
    }
}

/// The position of a terminal transaction.
pub open spec fn terminal_index(txns: Seq<HistoryEntryView>) -> int {
    choose|j: int| 0 <= j < txns.len() && txns[j].num_children == 0
}

/// The final text a merge-free trace replays to, or nothing if some splice
/// falls out of bounds along the way.
pub open spec fn replayed_text(txns: Seq<HistoryEntryView>) -> Option<Seq<char>> {
    match sim_texts(txns, txns.len() as int) {
        None => None,
        Some(m) => Some(m[txns[terminal_index(txns)].id]),
    }
}

/// Once a splice has failed, it stays failed.
proof fn lemma_sim_none_propagates(txns: Seq<HistoryEntryView>, a: int, b: int)
    requires
        a <= b,
        sim_texts(txns, a) is None,
    ensures
        sim_texts(txns, b) is None,
    decreases b - a,
{
    if a < b {
        lemma_sim_none_propagates(txns, a + 1, b);
    }
}

/// A terminal transaction at or after position `a` makes the terminal
/// count from `a` positive.
proof fn lemma_terminal_ge_one(txns: Seq<HistoryEntryView>, a: int, j: int)
    requires
        0 <= a <= j < txns.len(),
        txns[j].num_children == 0,
    ensures
        terminals_from(txns, a) >= 1,
    decreases j - a,
{
    if a < j {
        lemma_terminal_ge_one(txns, a + 1, j);
    }
}

/// Two distinct terminal transactions make the terminal count at least
/// two.
proof fn lemma_two_terminals(txns: Seq<HistoryEntryView>, a: int, j1: int, j2: int)
    requires
        0 <= a <= j1 < j2 < txns.len(),
        txns[j1].num_children == 0,
        txns[j2].num_children == 0,
    ensures
        terminals_from(txns, a) >= 2,
    decreases j1 - a,
{
    if a == j1 {
        lemma_terminal_ge_one(txns, a + 1, j2);
    } else {
        lemma_two_terminals(txns, a + 1, j1, j2);
    }
}

/// In a well-formed trace the terminal transaction is the last one: a
/// later transaction would declare children nobody consumes.
proof fn lemma_terminal_is_last(txns: Seq<HistoryEntryView>)
    requires
        well_formed_trace(txns),
        txns.len() > 0,
    ensures
        txns[txns.len() - 1].num_children == 0,
        forall|j: int| 0 <= j < txns.len() - 1 ==> txns[j].num_children != 0,
        terminal_index(txns) == txns.len() - 1,
{
    let n = txns.len() as int;
    assert(takes_from(txns, n, txns[n - 1].id) == 0);
    assert(takes_from(txns, n - 1 + 1, txns[n - 1].id) == txns[n - 1].num_children);
    assert forall|j: int| 0 <= j < n - 1 implies txns[j].num_children != 0 by {
        if txns[j].num_children == 0 {
            lemma_two_terminals(txns, 0, j, n - 1);
        }
    }
    assert(0 <= n - 1 < txns.len() && txns[n - 1].num_children == 0);
}

/// Transaction `id` has a state on deposit before position `i`: it is the
/// sentinel, or an earlier transaction with that identifier declared at
/// least one child.
pub open spec fn deposited_before(txns: Seq<HistoryEntryView>, i: int, id: usize) -> bool {
    id == SENTINEL_ID || (exists|j: int|
        0 <= j < i && txns[j].id == id && txns[j].num_children > 0)
}

/// In a well-formed trace, every effective parent of a transaction has a
/// deposited state, and consuming it is counted at least once from its
/// position on.
proof fn lemma_parent_deposited(txv: Seq<HistoryEntryView>, i: int, l: int)
    requires
        parents_resolve(txv),
        consumption_matches(txv),
        0 <= i < txv.len(),
        0 <= l < effective_parents(txv[i]).len(),
    ensures
        deposited_before(txv, i, effective_parents(txv[i])[l]),
        occurrences_from(effective_parents(txv[i]), l, effective_parents(txv[i])[l]) >= 1,
{
    let eff = effective_parents(txv[i]);
    let p = eff[l];
    assert(occurrences_from(eff, l, p) >= occurrences_from(eff, l + 1, p) + 1);
    if p != SENTINEL_ID {
        assert(txv[i].parents.len() > 0);
        assert(id_declared_before(txv, i, p));
        let j = choose|j: int| 0 <= j < i && txv[j].id == p;
        lemma_takes_monotone(txv, j + 1, i, p);
        lemma_occurrences_monotone(eff, 0, l, p);
        assert(takes_from(txv, i, p) == occurrences_from(eff, 0, p) + takes_from(txv, i + 1, p));
        assert(txv[j].num_children >= 1);
    }
}

/// A trace in which no transaction declares more than one child and the
/// initial document is consumed at most once: along such a trace every
/// state is handed to its single consumer by moving, never by forking.
pub open spec fn single_consumer_trace(txns: Seq<HistoryEntryView>) -> bool {
    &&& forall|j: int| 0 <= j < txns.len() ==> txns[j].num_children <= 1
    &&& takes_from(txns, 0, SENTINEL_ID) <= 1
}

/// Move, never fork, on linear chains: a well-formed trace in which every
/// transaction has at most one parent and at most one child is a
/// single-consumer trace — it has exactly one root — so `replay`'s fork
/// clause applies and a successful replay of it performed no fork.
pub proof fn lemma_linear_chain_single_consumer(txns: Seq<HistoryEntryView>)
    requires
        well_formed_trace(txns),
        linear_chain(txns),
    ensures
        single_consumer_trace(txns),
{
    lemma_linear_chain_one_root(txns);
}

/// Replays the whole trace: validates it, seeds the store with the initial
/// empty document, processes every transaction in order, and at the single
/// terminal transaction reads, serializes and checks the final text.
///
/// The error contract mirrors the failure categories: a non-empty initial
/// content and a structurally broken trace are reported exactly when they
/// occur; an out-of-bounds splice, a rejected merge, or a final-text
/// mismatch can only be reported on a well-formed trace, a rejected merge
/// only on one that actually merges, and a mismatch carries a text that
/// indeed differs from the declared final content.  On success the
/// returned text is the declared final content, and on a trace where every
/// state has at most one consumer no fork was performed.  On a well-formed
/// merge-free trace the outcome is fully determined: the replay succeeds
/// exactly when every splice is in bounds and the trace replays to its
/// declared final content, and an out-of-bounds splice is reported exactly
/// when one occurs.
#[verifier::loop_isolation(false)]
#[verifier::rlimit(100)]
pub fn replay(h: &EditHistory) -> (r: Result<ReplayOutcome, ReplayError>)
    ensures
        (r matches Err(ReplayError::NonEmptyStart)) <==> h@.start_content.len() != 0,
        (r matches Err(ReplayError::BadStructure)) <==> (h@.start_content.len() == 0
            && !well_formed_trace(h@.txns)),
        r matches Err(ReplayError::SpliceOutOfBounds) ==> h@.start_content.len() == 0
            && well_formed_trace(h@.txns),
        r matches Err(ReplayError::MergeConflict) ==> h@.start_content.len() == 0
            && well_formed_trace(h@.txns) && !merge_free(h@.txns),
        r matches Err(ReplayError::TextMismatch { actual }) ==> well_formed_trace(h@.txns)
            && actual@ != h@.end_content,
        r matches Ok(out) ==> h@.start_content.len() == 0 && well_formed_trace(h@.txns)
            && out.final_text@ == h@.end_content,
        single_consumer_trace(h@.txns) ==> (r matches Ok(out) ==> out.forks == 0),
        h@.start_content.len() == 0 && well_formed_trace(h@.txns) && merge_free(h@.txns) ==> {
            &&& (r is Ok <==> replayed_text(h@.txns) == Some(h@.end_content))
            &&& ((r matches Err(ReplayError::SpliceOutOfBounds)) <==> replayed_text(h@.txns)
                is None)
        },
        r matches Err(ReplayError::TextMismatch { actual }) ==> (merge_free(h@.txns)
            ==> replayed_text(h@.txns) == Some(actual@)),
{
    let ghost txv = h@.txns;
    let seed = match validate(h) {
        Ok(s) => s,
        Err(err) => {
            return Err(err);
        },
    };
    let n = h.txns.len();
    proof {
        if n == 0 {
            assert(terminals_from(txv, 0) == 0);
        }
        lemma_parent_deposited(txv, 0, 0);
        assert(takes_from(txv, 0, SENTINEL_ID) == occurrences_from(
            effective_parents(txv[0]),
            0,
            SENTINEL_ID,
        ) + takes_from(txv, 1, SENTINEL_ID));
        if effective_parents(txv[0])[0] != SENTINEL_ID {
            assert(id_declared_before(txv, 0, effective_parents(txv[0])[0]));
            assert(false);
        }
    }

    let (doc0, text_obj) = new_text_doc(u64::MAX, "text");
    let mut store = DocStore::new(text_obj);
    store.deposit(SENTINEL_ID, doc0, seed);

    let mut out: Option<ReplayOutcome> = None;
    let mut i: usize = 0;
    while i < n
        invariant
            i <= n,
            store.wf(),
            store.obj() == text_obj,
            forall|id: usize| #[trigger]
                store.contents().contains_key(id) <==> (deposited_before(txv, i as int, id)
                    && takes_from(txv, i as int, id) > 0),
            forall|id: usize| #[trigger]
                store.contents().contains_key(id) ==> store.contents()[id].1 == takes_from(
                    txv,
                    i as int,
                    id,
                ),
            single_consumer_trace(txv) ==> store.fork_count() == 0,
            out is Some <==> exists|j: int| 0 <= j < i && txv[j].num_children == 0,
            out matches Some(o) ==> o.final_text@ == h@.end_content && (single_consumer_trace(txv)
                ==> o.forks == 0),
            merge_free(txv) ==> (sim_texts(txv, i as int) matches Some(m) && (forall|id: usize|
                #[trigger] store.contents().contains_key(id) ==> store.contents()[id].0 == m[id])),
            out matches Some(o) ==> (merge_free(txv) ==> replayed_text(txv) == Some(
                o.final_text@,
            )),
        decreases n - i,
    {
        let ghost effi = effective_parents(txv[i as int]);
        proof {
            assert(takes_from(txv, i as int, SENTINEL_ID) == occurrences_from(
                effi,
                0,
                SENTINEL_ID,
            ) + takes_from(txv, i + 1, SENTINEL_ID));
        }
        let pn = h.txns[i].parents.len();
        let first_p = if pn == 0 {
            SENTINEL_ID
        } else {
            h.txns[i].parents[0]
        };
        proof {
            if pn == 0 {
                assert(effi =~= seq![SENTINEL_ID]);
            }
            assert(effi[0] == first_p);
            lemma_parent_deposited(txv, i as int, 0);
            assert(takes_from(txv, i as int, first_p) == occurrences_from(effi, 0, first_p)
                + takes_from(txv, i + 1, first_p));
            if single_consumer_trace(txv) {
                lemma_store_counts_bounded(txv, i as int, 0, first_p);
            }
        }
        let ghost pre = store.contents();
        let mut doc = store.take(first_p);
        proof {
            assert forall|id: usize| #[trigger]
                store.contents().contains_key(id) <==> (deposited_before(txv, i as int, id)
                    && occurrences_from(effi, 1, id) + takes_from(txv, i + 1, id) > 0) by {
                assert(pre.contains_key(id) <==> (deposited_before(txv, i as int, id)
                    && takes_from(txv, i as int, id) > 0));
                assert(pre.contains_key(id) ==> pre[id].1 == takes_from(txv, i as int, id));
                assert(takes_from(txv, i as int, id) == occurrences_from(effi, 0, id)
                    + takes_from(txv, i + 1, id));
                assert(occurrences_from(effi, 0, id) == (if effi[0] == id {
                    1nat
                } else {
                    0nat
                }) + occurrences_from(effi, 1, id));
            }
            assert forall|id: usize| #[trigger]
                store.contents().contains_key(id) implies store.contents()[id].1
                == occurrences_from(effi, 1, id) + takes_from(txv, i + 1, id) by {
                assert(pre.contains_key(id) <==> (deposited_before(txv, i as int, id)
                    && takes_from(txv, i as int, id) > 0));
                assert(pre.contains_key(id) ==> pre[id].1 == takes_from(txv, i as int, id));
                assert(takes_from(txv, i as int, id) == occurrences_from(effi, 0, id)
                    + takes_from(txv, i + 1, id));
                assert(occurrences_from(effi, 0, id) == (if effi[0] == id {
                    1nat
                } else {
                    0nat
                }) + occurrences_from(effi, 1, id));
            }
            if single_consumer_trace(txv) {
                assert(pre.contains_key(first_p));
                assert(pre[first_p].1 == takes_from(txv, i as int, first_p));
                assert(takes_from(txv, i as int, first_p) == occurrences_from(effi, 0, first_p)
                    + takes_from(txv, i + 1, first_p));
                assert(pre[first_p].1 == 1);
            }
            if merge_free(txv) {
                assert(pre.contains_key(first_p));
                assert(doc_text(doc, text_obj) == sim_texts(txv, i as int)->Some_0[effi[0]]);
                assert forall|id: usize| #[trigger]
                    store.contents().contains_key(id) implies store.contents()[id].0 == sim_texts(
                    txv,
                    i as int,
                )->Some_0[id] by {
                    assert(pre.contains_key(id) ==> pre[id].0 == sim_texts(
                        txv,
                        i as int,
                    )->Some_0[id]);
                }
            }
        }
        let mut l: usize = 1;
        while l < pn
            invariant
                i < n,
                1 <= l,
                l <= pn || (pn == 0 && l == 1),
                pn == txv[i as int].parents.len(),
                effi == effective_parents(txv[i as int]),
                store.wf(),
                store.obj() == text_obj,
                has_text_obj(doc, text_obj),
                forall|id: usize| #[trigger]
                    store.contents().contains_key(id) <==> (deposited_before(txv, i as int, id)
                        && occurrences_from(effi, l as int, id) + takes_from(txv, i + 1, id) > 0),
                forall|id: usize| #[trigger]
                    store.contents().contains_key(id) ==> store.contents()[id].1
                        == occurrences_from(effi, l as int, id) + takes_from(txv, i + 1, id),
                single_consumer_trace(txv) ==> store.fork_count() == 0,
                merge_free(txv) ==> (sim_texts(txv, i as int) matches Some(m) && (forall|
                    id: usize,
                |
                    #[trigger] store.contents().contains_key(id) ==> store.contents()[id].0
                        == m[id]) && doc_text(doc, text_obj) == m[effi[0]]),
            decreases pn - l,
        {
            let p = h.txns[i].parents[l];
            proof {
                assert(effi[l as int] == p);
                lemma_parent_deposited(txv, i as int, l as int);
                assert(occurrences_from(effi, l as int, p) == 1 + occurrences_from(
                    effi,
                    l + 1,
                    p,
                ));
                if single_consumer_trace(txv) {
                    lemma_store_counts_bounded(txv, i as int, l as int, p);
                }
            }
            let ghost prel = store.contents();
            let mut taken = store.take(p);
            proof {
                assert forall|id: usize| #[trigger]
                    store.contents().contains_key(id) <==> (deposited_before(txv, i as int, id)
                        && occurrences_from(effi, l + 1, id) + takes_from(txv, i + 1, id)
                        > 0) by {
                    assert(prel.contains_key(id) <==> (deposited_before(txv, i as int, id)
                        && occurrences_from(effi, l as int, id) + takes_from(txv, i + 1, id) > 0));
                    assert(prel.contains_key(id) ==> prel[id].1 == occurrences_from(
                        effi,
                        l as int,
                        id,
                    ) + takes_from(txv, i + 1, id));
                    assert(occurrences_from(effi, l as int, id) == (if effi[l as int] == id {
                        1nat
                    } else {
                        0nat
                    }) + occurrences_from(effi, l + 1, id));
                }
                assert forall|id: usize| #[trigger]
                    store.contents().contains_key(id) implies store.contents()[id].1
                    == occurrences_from(effi, l + 1, id) + takes_from(txv, i + 1, id) by {
                    assert(prel.contains_key(id) <==> (deposited_before(txv, i as int, id)
                        && occurrences_from(effi, l as int, id) + takes_from(txv, i + 1, id) > 0));
                    assert(prel.contains_key(id) ==> prel[id].1 == occurrences_from(
                        effi,
                        l as int,
                        id,
                    ) + takes_from(txv, i + 1, id));
                    assert(occurrences_from(effi, l as int, id) == (if effi[l as int] == id {
                        1nat
                    } else {
                        0nat
                    }) + occurrences_from(effi, l + 1, id));
                }
                if single_consumer_trace(txv) {
                    assert(prel.contains_key(p));
                    assert(prel[p].1 == occurrences_from(effi, l as int, p) + takes_from(
                        txv,
                        i + 1,
                        p,
                    ));
                    assert(prel[p].1 == 1);
                }
            }
            match doc_merge(&mut doc, &mut taken, store.obj_ref()) {
                Ok(_) => {},
                Err(_) => {
                    proof {
                        assert(txv[i as int].parents.len() >= 2);
                        assert(!merge_free(txv));
                    }
                    return Err(ReplayError::MergeConflict);
                },
            }
            l = l + 1;
        }
        proof {
            assert(l as int == effi.len());
            assert forall|id: usize| occurrences_from(effi, l as int, id) == 0 by {}
        }
        set_doc_actor(&mut doc, store.obj_ref(), h.txns[i].id as u64);
        proof {
            assert(txv[i as int] == h.txns@[i as int]@);
        }
        match apply_entry_ops(&mut doc, store.obj_ref(), &h.txns[i].ops) {
            Ok(_) => {},
            Err(err) => {
                proof {
                    if merge_free(txv) {
                        assert(sim_texts(txv, i + 1) is None);
                        lemma_sim_none_propagates(txv, i + 1, n as int);
                    }
                }
                return Err(err);
            },
        }
        doc_commit(&mut doc, store.obj_ref());
        let ghost produced = doc_text(doc, text_obj);
        let nc = h.txns[i].num_children;
        if nc > 0 {
            proof {
                assert(nc == txv[i as int].num_children);
                assert(takes_from(txv, i + 1, txv[i as int].id) == nc);
                if store.contents().contains_key(txv[i as int].id) {
                    assert(deposited_before(txv, i as int, txv[i as int].id));
                    assert(txv[i as int].id != SENTINEL_ID);
                    let j = choose|j: int|
                        0 <= j < i && txv[j].id == txv[i as int].id && txv[j].num_children > 0;
                    assert(txv[j].id != txv[i as int].id);
                    assert(false);
                }
            }
            store.deposit(h.txns[i].id, doc, nc);
        } else {
            let txt = doc_read_text(&doc, store.obj_ref());
            let saved_bytes = doc_save(&mut doc, store.obj_ref());
            proof {
                lemma_terminal_is_last(txv);
                assert(i as int == n - 1);
                if merge_free(txv) {
                    assert(sim_texts(txv, i + 1) == Some(
                        sim_texts(txv, i as int)->Some_0.insert(txv[i as int].id, txt@),
                    ));
                    assert(terminal_index(txv) == i as int);
                    assert(replayed_text(txv) == Some(txt@));
                }
            }
            if !txt.eq(&h.end_content) {
                return Err(ReplayError::TextMismatch { actual: txt });
            }
            out = Some(
                ReplayOutcome { final_text: txt, saved: saved_bytes, forks: store.forks_made() },
            );
        }
        proof {
            if merge_free(txv) {
                assert(sim_texts(txv, i + 1) == Some(
                    sim_texts(txv, i as int)->Some_0.insert(txv[i as int].id, produced),
                ));
                assert forall|id: usize| #[trigger]
                    store.contents().contains_key(id) implies store.contents()[id].0 == sim_texts(
                    txv,
                    i + 1,
                )->Some_0[id] by {}
            }
            assert forall|id: usize| #[trigger]
                store.contents().contains_key(id) <==> (deposited_before(txv, i + 1, id)
                    && takes_from(txv, i + 1, id) > 0) by {
                lemma_deposited_step(txv, i as int, id);
            }
            assert forall|id: usize| #[trigger]
                store.contents().contains_key(id) implies store.contents()[id].1 == takes_from(
                txv,
                i + 1,
                id,
            ) by {
                lemma_deposited_step(txv, i as int, id);
            }
            if exists|j: int| 0 <= j < i + 1 && txv[j].num_children == 0 {
                let j = choose|j: int| 0 <= j < i + 1 && txv[j].num_children == 0;
                if j < i {
                    assert(exists|jj: int| 0 <= jj < i && txv[jj].num_children == 0);
                }
            }
        }
        i = i + 1;
    }
    proof {
        // All accounting has balanced: every deposited state, the initial
        // document included, was consumed exactly as often as declared, so
        // nothing is left in the store.
        assert forall|id: usize| !store.contents().contains_key(id) by {
            assert(takes_from(txv, n as int, id) == 0);
        }
    }
    match out {
        Some(o) => Ok(o),
        None => {
            proof {
                lemma_terminal_exists(txv, 0);
                assert(false);
            }
            Err(ReplayError::BadStructure)
        },
    }
}

/// Depositing at position `i` extends the set of deposited identifiers by
/// exactly that transaction's identifier, when it declares children.
proof fn lemma_deposited_step(txv: Seq<HistoryEntryView>, i: int, id: usize)
    requires
        0 <= i < txv.len(),
    ensures
        deposited_before(txv, i + 1, id) <==> (deposited_before(txv, i, id) || (id == txv[i].id
            && txv[i].num_children > 0)),
{
    if id != SENTINEL_ID {
        if deposited_before(txv, i + 1, id) {
            let j = choose|j: int| 0 <= j < i + 1 && txv[j].id == id && txv[j].num_children > 0;
            if j < i {
                assert(deposited_before(txv, i, id));
            }
        }
        if deposited_before(txv, i, id) {
            let j = choose|j: int| 0 <= j < i && txv[j].id == id && txv[j].num_children > 0;
            assert(0 <= j < i + 1 && txv[j].id == id && txv[j].num_children > 0);
        }
    }
}

/// Under a single-consumer trace, every remaining count the store can hold
/// is at most one.
proof fn lemma_store_counts_bounded(txv: Seq<HistoryEntryView>, i: int, l: int, id: usize)
    requires
        consumption_matches(txv),
        single_consumer_trace(txv),
        deposited_before(txv, i, id),
        0 <= i < txv.len(),
        0 <= l,
    ensures
        occurrences_from(effective_parents(txv[i]), l, id) + takes_from(txv, i + 1, id) <= 1,
{
    let eff = effective_parents(txv[i]);
    lemma_occurrences_monotone(eff, 0, l, id);
    assert(takes_from(txv, i, id) == occurrences_from(eff, 0, id) + takes_from(txv, i + 1, id));
    if id == SENTINEL_ID {
        lemma_takes_monotone(txv, 0, i, id);
    } else {
        let j = choose|j: int| 0 <= j < i && txv[j].id == id && txv[j].num_children > 0;
        lemma_takes_monotone(txv, j + 1, i, id);
        assert(takes_from(txv, j + 1, id) == txv[j].num_children);
    }
}

} // verus!
