//! The recorded edit trace: its data model and the structural conditions
//! under which a replay is possible.
use vstd::prelude::*;

verus! {

/// Identifier that stands for the initial empty document.  A transaction
/// with no parents implicitly consumes one copy of that document.
pub const SENTINEL_ID: usize = usize::MAX;

/// One text splice: delete `.1` characters starting at position `.0`, then
/// insert the text `.2` at that position.  Positions count unicode code
/// points.
#[derive(Clone, Debug)]
pub struct SimpleTextOp(pub usize, pub usize, pub String);

impl View for SimpleTextOp {
    type V = (nat, nat, Seq<char>);

    open spec fn view(&self) -> (nat, nat, Seq<char>) {
        (self.0 as nat, self.1 as nat, self.2@)
    }
}

/// One node of the edit graph: a transaction with a unique identifier, the
/// identifiers of the transactions whose resulting states it consumes, the
/// number of later transactions that will consume its own resulting state,
/// the author, and the splices it applies.
#[derive(Clone, Debug)]
pub struct HistoryEntry {
    pub id: usize,
    pub parents: Vec<usize>,
    pub num_children: usize,
    pub agent: String,
    pub ops: Vec<SimpleTextOp>,
}

pub ghost struct HistoryEntryView {
    pub id: usize,
    pub parents: Seq<usize>,
    pub num_children: usize,
    pub agent: Seq<char>,
    pub ops: Seq<(nat, nat, Seq<char>)>,
}

impl View for HistoryEntry {
    type V = HistoryEntryView;

    open spec fn view(&self) -> HistoryEntryView {
        HistoryEntryView {
            id: self.id,
            parents: self.parents@,
            num_children: self.num_children,
            agent: self.agent@,
            ops: self.ops@.map_values(|op: SimpleTextOp| op@),
        }
    }
}

/// A full recorded trace: the text the document holds before any
/// transaction (required to be empty), the expected final text, and the
/// transactions in an order where every parent precedes its children.
#[derive(Clone, Debug)]
pub struct EditHistory {
    pub start_content: String,
    pub end_content: String,
    pub txns: Vec<HistoryEntry>,
}

pub ghost struct EditHistoryView {
    pub start_content: Seq<char>,
    pub end_content: Seq<char>,
    pub txns: Seq<HistoryEntryView>,
}

impl View for EditHistory {
    type V = EditHistoryView;

    open spec fn view(&self) -> EditHistoryView {
        EditHistoryView {
            start_content: self.start_content@,
            end_content: self.end_content@,
            txns: self.txns@.map_values(|e: HistoryEntry| e@),
        }
    }
}

/// The parent identifiers a transaction consumes: its listed parents, or a
/// single sentinel when the list is empty.
pub open spec fn effective_parents(e: HistoryEntryView) -> Seq<usize> {
    if e.parents.len() == 0 {
        seq![SENTINEL_ID]
    } else {
        e.parents
    }
}

/// How often `id` occurs in `ps` at positions `k` and later.
pub open spec fn occurrences_from(ps: Seq<usize>, k: int, id: usize) -> nat
    decreases ps.len() - k,
{
    if k < 0 || k >= ps.len() {
        0
    } else {
        (if ps[k] == id {
            1nat
        } else {
            0nat
        }) + occurrences_from(ps, k + 1, id)
    }
}

/// How often the state of transaction `id` is consumed by the transactions
/// at positions `i` and later.
pub open spec fn takes_from(txns: Seq<HistoryEntryView>, i: int, id: usize) -> nat
    decreases txns.len() - i,
{
    if i < 0 || i >= txns.len() {
        0
    } else {
        occurrences_from(effective_parents(txns[i]), 0, id) + takes_from(txns, i + 1, id)
    }
}

/// The number of terminal transactions (those with no children) at
/// positions `i` and later.
pub open spec fn terminals_from(txns: Seq<HistoryEntryView>, i: int) -> nat
    decreases txns.len() - i,
{
    if i < 0 || i >= txns.len() {
        0
    } else {
        (if txns[i].num_children == 0 {
            1nat
        } else {
            0nat
        }) + terminals_from(txns, i + 1)
    }
}

/// Some transaction before position `i` carries the identifier `id`.
pub open spec fn id_declared_before(txns: Seq<HistoryEntryView>, i: int, id: usize) -> bool {
    exists|j: int| 0 <= j < i && txns[j].id == id
}

/// All transaction identifiers are distinct.
pub open spec fn unique_ids(txns: Seq<HistoryEntryView>) -> bool {
    forall|j: int, k: int| 0 <= j < k < txns.len() ==> txns[j].id != txns[k].id
}

/// No transaction claims the sentinel identifier for itself.
pub open spec fn no_sentinel_ids(txns: Seq<HistoryEntryView>) -> bool {
    forall|j: int| 0 <= j < txns.len() ==> txns[j].id != SENTINEL_ID
}

/// Every listed parent is either the sentinel or the identifier of an
/// earlier transaction: the order is a topological order of the graph.
pub open spec fn parents_resolve(txns: Seq<HistoryEntryView>) -> bool {
    forall|i: int, k: int|
        0 <= i < txns.len() && 0 <= k < txns[i].parents.len() ==> txns[i].parents[k] == SENTINEL_ID
            || id_declared_before(txns, i, txns[i].parents[k])
}

/// Every transaction's resulting state is consumed exactly as often as its
/// declared number of children.
pub open spec fn consumption_matches(txns: Seq<HistoryEntryView>) -> bool {
    forall|j: int|
        0 <= j < txns.len() ==> takes_from(txns, j + 1, txns[j].id) == txns[j].num_children
}

/// The structural conditions under which the trace can be replayed: exactly
/// one terminal transaction, distinct identifiers, a topological order, and
/// consumer counts that agree with the graph.  The bound on the sentinel's
/// consumer count is a machine limit: that count is held in a `usize`.
pub open spec fn well_formed_trace(txns: Seq<HistoryEntryView>) -> bool {
    &&& terminals_from(txns, 0) == 1
    &&& unique_ids(txns)
    &&& no_sentinel_ids(txns)
    &&& parents_resolve(txns)
    &&& consumption_matches(txns)
    &&& takes_from(txns, 0, SENTINEL_ID) < usize::MAX
}

/// Occurrence counts never grow when the starting position moves right.
pub proof fn lemma_occurrences_monotone(ps: Seq<usize>, a: int, b: int, id: usize)
    requires
        0 <= a <= b,
    ensures
        occurrences_from(ps, a, id) >= occurrences_from(ps, b, id),
    decreases b - a,
{
    if a < b {
        lemma_occurrences_monotone(ps, a + 1, b, id);
    }
}

/// Consumption counts never grow when the starting position moves right.
pub proof fn lemma_takes_monotone(txns: Seq<HistoryEntryView>, a: int, b: int, id: usize)
    requires
        0 <= a <= b,
    ensures
        takes_from(txns, a, id) >= takes_from(txns, b, id),
    decreases b - a,
{
    if a < b {
        lemma_takes_monotone(txns, a + 1, b, id);
    }
}

/// The number of root transactions (those with no parents) at positions
/// `i` and later.
pub open spec fn root_count_from(txns: Seq<HistoryEntryView>, i: int) -> nat
    decreases txns.len() - i,
{
    if i < 0 || i >= txns.len() {
        0
    } else {
        (if txns[i].parents.len() == 0 {
            1nat
        } else {
            0nat
        }) + root_count_from(txns, i + 1)
    }
}

/// No transaction lists the sentinel as an explicit parent: roots are
/// exactly the transactions with an empty parent list.
pub open spec fn no_explicit_sentinel_parents(txns: Seq<HistoryEntryView>) -> bool {
    forall|j: int, k: int|
        0 <= j < txns.len() && 0 <= k < txns[j].parents.len() ==> txns[j].parents[k]
            != SENTINEL_ID
}

/// An identifier that occurs nowhere in the list is counted zero times.
proof fn lemma_occurrences_absent(ps: Seq<usize>, k: int, id: usize)
    requires
        forall|l: int| 0 <= l < ps.len() ==> ps[l] != id,
    ensures
        occurrences_from(ps, k, id) == 0,
    decreases ps.len() - k,
{
    if 0 <= k < ps.len() {
        lemma_occurrences_absent(ps, k + 1, id);
    }
}

/// With no explicit sentinel parents, the initial document is consumed
/// exactly once per root.
proof fn lemma_sentinel_consumption(txns: Seq<HistoryEntryView>, i: int)
    requires
        no_explicit_sentinel_parents(txns),
    ensures
        takes_from(txns, i, SENTINEL_ID) == root_count_from(txns, i),
    decreases txns.len() - i,
{
    if 0 <= i < txns.len() {
        lemma_sentinel_consumption(txns, i + 1);
        if txns[i].parents.len() == 0 {
            assert(effective_parents(txns[i]) =~= seq![SENTINEL_ID]);
            assert(occurrences_from(effective_parents(txns[i]), 1, SENTINEL_ID) == 0);
        } else {
            lemma_occurrences_absent(txns[i].parents, 0, SENTINEL_ID);
        }
    }
}

/// Consumption accounting, stated of the whole trace: in a well-formed
/// trace whose roots are the transactions with empty parent lists, the
/// resulting state of every transaction is consumed by later transactions
/// exactly as often as its declared number of children, and the initial
/// empty document exactly once per root.  The replay engine takes one
/// parent state per effective parent, so these counts are the take calls
/// each deposited state receives over a full replay; it seeds the initial
/// document's consumer count accordingly and provably ends with an empty
/// store.
pub proof fn lemma_consumption_accounting(txns: Seq<HistoryEntryView>)
    requires
        well_formed_trace(txns),
        no_explicit_sentinel_parents(txns),
    ensures
        forall|j: int|
            0 <= j < txns.len() ==> takes_from(txns, j + 1, txns[j].id) == txns[j].num_children,
        takes_from(txns, 0, SENTINEL_ID) == root_count_from(txns, 0),
{
    lemma_sentinel_consumption(txns, 0);
}

/// A linear chain: every transaction has at most one parent and at most
/// one child.
pub open spec fn linear_chain(txns: Seq<HistoryEntryView>) -> bool {
    forall|j: int|
        0 <= j < txns.len() ==> txns[j].parents.len() <= 1 && txns[j].num_children <= 1
}

/// Among the transactions at positions `i` and later, how many consume a
/// state declared before position `b`.  On a trace where every
/// transaction has at most one parent, each contributes its single
/// effective parent.
spec fn escapes_from(txns: Seq<HistoryEntryView>, i: int, b: int) -> nat
    decreases txns.len() - i,
{
    if i < 0 || i >= txns.len() {
        0
    } else {
        (if effective_parents(txns[i])[0] != SENTINEL_ID && id_declared_before(
            txns,
            b,
            effective_parents(txns[i])[0],
        ) {
            1nat
        } else {
            0nat
        }) + escapes_from(txns, i + 1, b)
    }
}

/// Nothing is declared before the start of the trace.
proof fn lemma_escapes_zero(txns: Seq<HistoryEntryView>, i: int, b: int)
    requires
        b <= 0,
    ensures
        escapes_from(txns, i, b) == 0,
    decreases txns.len() - i,
{
    if 0 <= i < txns.len() {
        lemma_escapes_zero(txns, i + 1, b);
    }
}

/// Moving the declaration boundary past position `i` adds exactly the
/// consumptions of transaction `i`'s own state.
proof fn lemma_escapes_shift(txns: Seq<HistoryEntryView>, k: int, i: int)
    requires
        unique_ids(txns),
        no_sentinel_ids(txns),
        linear_chain(txns),
        0 <= i < txns.len(),
        i + 1 <= k,
    ensures
        escapes_from(txns, k, i + 1) == escapes_from(txns, k, i) + takes_from(
            txns,
            k,
            txns[i].id,
        ),
    decreases txns.len() - k,
{
    if k < txns.len() {
        lemma_escapes_shift(txns, k + 1, i);
        let p = effective_parents(txns[k])[0];
        assert(effective_parents(txns[k]).len() == 1);
        assert(occurrences_from(effective_parents(txns[k]), 1, txns[i].id) == 0);
        assert(occurrences_from(effective_parents(txns[k]), 0, txns[i].id) == (if p == txns[i].id {
            1nat
        } else {
            0nat
        }));
        if p == txns[i].id {
            assert(id_declared_before(txns, i + 1, p));
            if id_declared_before(txns, i, p) {
                let j = choose|j: int| 0 <= j < i && txns[j].id == p;
                assert(txns[j].id != txns[i].id);
                assert(false);
            }
            assert(p != SENTINEL_ID);
        } else {
            if id_declared_before(txns, i + 1, p) {
                let j = choose|j: int| 0 <= j < i + 1 && txns[j].id == p;
                if j < i {
                    assert(id_declared_before(txns, i, p));
                }
            }
            if id_declared_before(txns, i, p) {
                let j = choose|j: int| 0 <= j < i && txns[j].id == p;
                assert(0 <= j < i + 1 && txns[j].id == p);
            }
        }
        assert(takes_from(txns, k, txns[i].id) == occurrences_from(
            effective_parents(txns[k]),
            0,
            txns[i].id,
        ) + takes_from(txns, k + 1, txns[i].id));
    }
}

/// The balance of a linear chain: among the transactions at positions `i`
/// and later, the consumptions of the initial document plus the
/// consumptions of states declared before `i` equal the number of
/// terminal transactions — each transaction consumes exactly one state
/// and hands its own to at most one consumer.
proof fn lemma_linear_balance(txns: Seq<HistoryEntryView>, i: int)
    requires
        unique_ids(txns),
        no_sentinel_ids(txns),
        parents_resolve(txns),
        consumption_matches(txns),
        linear_chain(txns),
        0 <= i <= txns.len(),
    ensures
        takes_from(txns, i, SENTINEL_ID) + escapes_from(txns, i, i) == terminals_from(txns, i),
    decreases txns.len() - i,
{
    if i < txns.len() {
        lemma_linear_balance(txns, i + 1);
        lemma_escapes_shift(txns, i + 1, i);
        let p = effective_parents(txns[i])[0];
        assert(effective_parents(txns[i]).len() == 1);
        assert(occurrences_from(effective_parents(txns[i]), 1, SENTINEL_ID) == 0);
        assert(takes_from(txns, i, SENTINEL_ID) == occurrences_from(
            effective_parents(txns[i]),
            0,
            SENTINEL_ID,
        ) + takes_from(txns, i + 1, SENTINEL_ID));
        assert(occurrences_from(effective_parents(txns[i]), 0, SENTINEL_ID) == (if p
            == SENTINEL_ID {
            1nat
        } else {
            0nat
        }));
        assert(takes_from(txns, i + 1, txns[i].id) == txns[i].num_children);
        if p != SENTINEL_ID {
            assert(txns[i].parents.len() == 1);
            assert(txns[i].parents[0] == p);
            assert(id_declared_before(txns, i, p));
        }
        assert(escapes_from(txns, i, i) == (if p != SENTINEL_ID {
            1nat
        } else {
            0nat
        }) + escapes_from(txns, i + 1, i));
    }
}

/// A well-formed linear chain has exactly one root: the initial document
/// is consumed exactly once.
pub proof fn lemma_linear_chain_one_root(txns: Seq<HistoryEntryView>)
    requires
        well_formed_trace(txns),
        linear_chain(txns),
    ensures
        takes_from(txns, 0, SENTINEL_ID) == 1,
{
    lemma_linear_balance(txns, 0);
    lemma_escapes_zero(txns, 0, 0);
}

/// A positive terminal count names a terminal transaction.
pub proof fn lemma_terminal_exists(txns: Seq<HistoryEntryView>, i: int)
    requires
        0 <= i,
        terminals_from(txns, i) > 0,
    ensures
        exists|j: int| i <= j < txns.len() && txns[j].num_children == 0,
    decreases txns.len() - i,
{
    if i < txns.len() {
        if txns[i].num_children != 0 {
            lemma_terminal_exists(txns, i + 1);
        }
    }
}

} // verus!
