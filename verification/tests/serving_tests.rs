use bm25_index::builder::build;
use bm25_index::index::{Index, Record};
use bm25_index::serving::{prepare, Prepared, ServingState};

fn record(name: &str, items: &[&str]) -> Option<Record> {
    Some(Record { name: name.to_string(), items: items.iter().map(|s| s.to_string()).collect() })
}

fn two_documents() -> Index {
    build(&vec![record("doc_a", &["a/b", "c"]), record("doc_b", &["a/b"])]).unwrap()
}

fn other_documents() -> Index {
    build(&vec![record("x", &["q"]), record("y", &["c/c"]), record("z", &["c"])]).unwrap()
}

fn terms(items: &[&str]) -> Vec<String> {
    items.iter().map(|s| s.to_string()).collect()
}

fn shape(p: &Prepared) -> Vec<(String, u32, Vec<u32>)> {
    p.candidates
        .iter()
        .zip(p.names.iter())
        .map(|(c, name)| (name.clone(), c.doc, c.parts.iter().map(|s| s.freq).collect()))
        .collect()
}

#[test]
fn prepare_names_the_candidates() {
    let index = two_documents();
    let p = prepare(&index, &terms(&["c", "b"]));
    assert_eq!(p.document_count, 2);
    assert_eq!(p.total_length, 5);
    assert_eq!(
        shape(&p),
        vec![("doc_a".to_string(), 0, vec![1, 1]), ("doc_b".to_string(), 1, vec![1])]
    );
}

#[test]
fn prepare_of_empty_query_has_no_candidates() {
    let p = prepare(&two_documents(), &Vec::new());
    assert!(p.candidates.is_empty());
    assert!(p.names.is_empty());
    assert_eq!(p.document_count, 2);
}

#[test]
fn serving_state_answers_from_its_index() {
    let state = ServingState::new(two_documents());
    let direct = prepare(&two_documents(), &terms(&["a", "c"]));
    let served = state.prepare(&terms(&["a", "c"]));
    assert_eq!(shape(&served), shape(&direct));
    let again = state.prepare(&terms(&["a", "c"]));
    assert_eq!(shape(&again), shape(&served));
}

#[test]
fn serving_state_replace_swaps_the_whole_index() {
    let mut state = ServingState::new(two_documents());
    assert_eq!(shape(&state.prepare(&terms(&["c"]))), vec![("doc_a".to_string(), 0, vec![1])]);
    let previous = state.replace(other_documents());
    assert_eq!(previous.documents, vec!["doc_a".to_string(), "doc_b".to_string()]);
    let p = state.prepare(&terms(&["c"]));
    assert_eq!(p.document_count, 3);
    assert_eq!(p.total_length, 4);
    assert_eq!(shape(&p), vec![("y".to_string(), 1, vec![2]), ("z".to_string(), 2, vec![1])]);
}

#[test]
fn serving_state_serves_many_readers() {
    let state = std::sync::Arc::new(ServingState::new(two_documents()));
    let first = state.clone();
    let second = state.clone();
    let a = first.prepare(&terms(&["a"]));
    let b = second.prepare(&terms(&["a"]));
    assert_eq!(shape(&a), shape(&b));
}

#[test]
fn serving_state_reads_the_index_it_was_given() {
    let mut state = ServingState::new(two_documents());
    assert_eq!(state.read().documents, vec!["doc_a".to_string(), "doc_b".to_string()]);
    assert_eq!(state.read().total_length, 5);
    let previous = state.replace(other_documents());
    assert_eq!(previous.doc_length, vec![3, 2]);
    assert_eq!(state.read().documents, vec!["x".to_string(), "y".to_string(), "z".to_string()]);
    let back = state.replace(previous);
    assert_eq!(back.documents.len(), 3);
    assert_eq!(state.read().documents.len(), 2);
}

#[test]
fn serving_state_behind_a_lock_serves_readers_and_a_writer() {
    let shared = std::sync::Arc::new(std::sync::RwLock::new(ServingState::new(two_documents())));
    {
        let first = shared.read().unwrap();
        let second = shared.read().unwrap();
        assert_eq!(
            shape(&first.prepare(&terms(&["c"]))),
            shape(&second.prepare(&terms(&["c"])))
        );
    }
    let previous = shared.write().unwrap().replace(other_documents());
    assert_eq!(previous.documents.len(), 2);
    assert_eq!(shared.read().unwrap().prepare(&terms(&["q"])).names, vec!["x".to_string()]);
}
