use automerge::ReadDoc;
use dag_replay::history::{EditHistory, HistoryEntry, SimpleTextOp};
use dag_replay::replay::{replay, ReplayError};

fn op(pos: usize, del: usize, ins: &str) -> SimpleTextOp {
    SimpleTextOp(pos, del, ins.to_string())
}

fn entry(id: usize, parents: Vec<usize>, num_children: usize, ops: Vec<SimpleTextOp>) -> HistoryEntry {
    HistoryEntry {
        id,
        parents,
        num_children,
        agent: format!("agent{id}"),
        ops,
    }
}

fn history(end: &str, txns: Vec<HistoryEntry>) -> EditHistory {
    EditHistory {
        start_content: String::new(),
        end_content: end.to_string(),
        txns,
    }
}

#[test]
fn linear_three_entries() {
    let h = history(
        "aXcd",
        vec![
            entry(0, vec![], 1, vec![op(0, 0, "ab")]),
            entry(1, vec![0], 1, vec![op(2, 0, "cd")]),
            entry(2, vec![1], 0, vec![op(1, 1, "X")]),
        ],
    );
    let out = replay(&h).unwrap();
    assert_eq!(out.final_text, "aXcd");
}

#[test]
fn linear_chain_never_forks() {
    let h = history(
        "aXcd",
        vec![
            entry(0, vec![], 1, vec![op(0, 0, "ab")]),
            entry(1, vec![0], 1, vec![op(2, 0, "cd")]),
            entry(2, vec![1], 0, vec![op(1, 1, "X")]),
        ],
    );
    let out = replay(&h).unwrap();
    assert_eq!(out.forks, 0);
}

fn fork_merge_history(first: usize, second: usize) -> EditHistory {
    history(
        "left right",
        vec![
            entry(0, vec![], 2, vec![op(0, 0, " right")]),
            entry(1, vec![0], 1, vec![op(0, 0, "left")]),
            entry(2, vec![0], 1, vec![]),
            entry(3, vec![first, second], 0, vec![]),
        ],
    )
}

#[test]
fn fork_and_merge_contains_both_inserts() {
    let out = replay(&fork_merge_history(1, 2)).unwrap();
    assert_eq!(out.final_text, "left right");
    assert!(out.forks > 0);
}

#[test]
fn merge_order_does_not_change_text() {
    let a = replay(&fork_merge_history(1, 2)).unwrap();
    let b = replay(&fork_merge_history(2, 1)).unwrap();
    assert_eq!(a.final_text, b.final_text);
}

#[test]
fn disjoint_concurrent_inserts_converge() {
    // Two branches insert at opposite ends of a common base; the merge
    // must keep both, whichever branch is merged in first.
    let build = |first: usize, second: usize| {
        history(
            "XabcY",
            vec![
                entry(0, vec![], 2, vec![op(0, 0, "abc")]),
                entry(1, vec![0], 1, vec![op(0, 0, "X")]),
                entry(2, vec![0], 1, vec![op(3, 0, "Y")]),
                entry(3, vec![first, second], 0, vec![]),
            ],
        )
    };
    let a = replay(&build(1, 2)).unwrap();
    let b = replay(&build(2, 1)).unwrap();
    assert_eq!(a.final_text, "XabcY");
    assert_eq!(b.final_text, "XabcY");
}

#[test]
fn replay_is_idempotent_byte_for_byte() {
    let h = fork_merge_history(1, 2);
    let first = replay(&h).unwrap();
    let second = replay(&h).unwrap();
    assert_eq!(first.saved, second.saved);
    let lin = history("hi", vec![entry(7, vec![], 0, vec![op(0, 0, "hi")])]);
    let third = replay(&lin).unwrap();
    let fourth = replay(&lin).unwrap();
    assert_eq!(third.saved, fourth.saved);
}

#[test]
fn delete_whole_text_is_valid() {
    let h = history(
        "",
        vec![
            entry(0, vec![], 1, vec![op(0, 0, "abc")]),
            entry(1, vec![0], 0, vec![op(0, 3, "")]),
        ],
    );
    let out = replay(&h).unwrap();
    assert_eq!(out.final_text, "");
}

#[test]
fn empty_ops_entry_is_a_no_op() {
    let h = history(
        "ab",
        vec![
            entry(0, vec![], 1, vec![op(0, 0, "ab")]),
            entry(1, vec![0], 0, vec![]),
        ],
    );
    let out = replay(&h).unwrap();
    assert_eq!(out.final_text, "ab");
}

#[test]
fn multiple_roots_are_valid() {
    let build = |first: usize, second: usize| {
        history(
            "ba",
            vec![
                entry(0, vec![], 1, vec![op(0, 0, "a")]),
                entry(1, vec![], 1, vec![op(0, 0, "b")]),
                entry(2, vec![first, second], 0, vec![]),
            ],
        )
    };
    let a = replay(&build(0, 1)).unwrap();
    let b = replay(&build(1, 0)).unwrap();
    // Both inserts survive the merge of the two roots, in a CRDT-chosen
    // order that is the same however the parents are listed.
    assert_eq!(a.final_text.len(), 2);
    assert!(a.final_text.contains('a') && a.final_text.contains('b'));
    assert_eq!(a.final_text, b.final_text);
}

#[test]
fn explicit_sentinel_parent_is_a_root() {
    let h = history(
        "a",
        vec![entry(0, vec![dag_replay::history::SENTINEL_ID], 0, vec![op(0, 0, "a")])],
    );
    let out = replay(&h).unwrap();
    assert_eq!(out.final_text, "a");
}

#[test]
fn parent_listed_twice_merges_with_its_own_fork() {
    let h = history(
        "a",
        vec![
            entry(0, vec![], 2, vec![op(0, 0, "a")]),
            entry(1, vec![0, 0], 0, vec![]),
        ],
    );
    let out = replay(&h).unwrap();
    assert_eq!(out.final_text, "a");
    assert_eq!(out.forks, 1);
}

#[test]
fn non_empty_start_content_is_rejected() {
    let mut h = history("x", vec![entry(0, vec![], 0, vec![op(0, 0, "x")])]);
    h.start_content = "seed".to_string();
    assert!(matches!(replay(&h), Err(ReplayError::NonEmptyStart)));
}

#[test]
fn empty_trace_is_rejected() {
    let h = history("", vec![]);
    assert!(matches!(replay(&h), Err(ReplayError::BadStructure)));
}

#[test]
fn two_terminals_are_rejected() {
    let h = history(
        "a",
        vec![
            entry(0, vec![], 2, vec![op(0, 0, "a")]),
            entry(1, vec![0], 0, vec![]),
            entry(2, vec![0], 0, vec![]),
        ],
    );
    assert!(matches!(replay(&h), Err(ReplayError::BadStructure)));
}

#[test]
fn duplicate_ids_are_rejected() {
    let h = history(
        "a",
        vec![
            entry(0, vec![], 1, vec![op(0, 0, "a")]),
            entry(0, vec![0], 0, vec![]),
        ],
    );
    assert!(matches!(replay(&h), Err(ReplayError::BadStructure)));
}

#[test]
fn unknown_parent_is_rejected() {
    let h = history(
        "a",
        vec![
            entry(0, vec![], 1, vec![op(0, 0, "a")]),
            entry(1, vec![9], 0, vec![]),
        ],
    );
    assert!(matches!(replay(&h), Err(ReplayError::BadStructure)));
}

#[test]
fn parent_listed_after_child_is_rejected() {
    let h = history(
        "a",
        vec![
            entry(1, vec![0], 0, vec![]),
            entry(0, vec![], 1, vec![op(0, 0, "a")]),
        ],
    );
    assert!(matches!(replay(&h), Err(ReplayError::BadStructure)));
}

#[test]
fn consumer_count_mismatch_is_rejected() {
    // The root declares two children but only one transaction consumes it.
    let h = history(
        "a",
        vec![
            entry(0, vec![], 2, vec![op(0, 0, "a")]),
            entry(1, vec![0], 0, vec![]),
        ],
    );
    assert!(matches!(replay(&h), Err(ReplayError::BadStructure)));
}

#[test]
fn splice_beyond_text_is_rejected() {
    let h = history(
        "ab",
        vec![
            entry(0, vec![], 1, vec![op(0, 0, "ab")]),
            entry(1, vec![0], 0, vec![op(1, 5, "x")]),
        ],
    );
    assert!(matches!(replay(&h), Err(ReplayError::SpliceOutOfBounds)));
}

#[test]
fn insert_past_end_is_rejected() {
    let h = history(
        "ab",
        vec![
            entry(0, vec![], 1, vec![op(0, 0, "ab")]),
            entry(1, vec![0], 0, vec![op(5, 0, "x")]),
        ],
    );
    assert!(matches!(replay(&h), Err(ReplayError::SpliceOutOfBounds)));
}

#[test]
fn wrong_end_content_reports_mismatch() {
    let h = history(
        "zzz",
        vec![entry(0, vec![], 0, vec![op(0, 0, "abc")])],
    );
    match replay(&h) {
        Err(ReplayError::TextMismatch { actual }) => assert_eq!(actual, "abc"),
        other => panic!("expected a text mismatch, got {other:?}"),
    }
}

#[test]
fn saved_document_reloads_to_final_text() {
    let h = history(
        "aXcd",
        vec![
            entry(0, vec![], 1, vec![op(0, 0, "ab")]),
            entry(1, vec![0], 1, vec![op(2, 0, "cd")]),
            entry(2, vec![1], 0, vec![op(1, 1, "X")]),
        ],
    );
    let out = replay(&h).unwrap();
    let doc = automerge::AutoCommit::load(&out.saved).unwrap();
    let (_, text_id) = doc.get(automerge::ROOT, "text").unwrap().unwrap();
    assert_eq!(doc.text(&text_id).unwrap(), "aXcd");
}

#[test]
fn unicode_positions_count_code_points() {
    let h = history(
        "déjà!",
        vec![
            entry(0, vec![], 1, vec![op(0, 0, "déjà")]),
            entry(1, vec![0], 0, vec![op(4, 0, "!")]),
        ],
    );
    let out = replay(&h).unwrap();
    assert_eq!(out.final_text, "déjà!");
}
