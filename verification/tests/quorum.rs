use hydro::quorum::{collect_quorum, Quorum};
use hydro::request_response::join_responses;

#[test]
fn a_quorum_is_reported_once() {
    let mut state: Quorum<u32, char> = Quorum::new();
    let (done, failed) =
        collect_quorum::<u32, char, u8>(&mut state, &vec![('a', (1, Ok(())))], 2, 3);
    assert!(done.is_empty() && failed.is_empty());
    let responses = vec![('a', (2, Ok(()))), ('b', (1, Ok(())))];
    let (done, _) = collect_quorum::<u32, char, u8>(&mut state, &responses, 2, 3);
    assert_eq!(done, vec![1]);
    let (done, _) =
        collect_quorum::<u32, char, u8>(&mut state, &vec![('c', (1, Ok(())))], 2, 3);
    assert!(done.is_empty());
}

#[test]
fn failures_do_not_count() {
    let mut state: Quorum<u32, u8> = Quorum::new();
    let responses = vec![(0, (1, Err('x'))), (1, (1, Ok(()))), (2, (1, Err('y')))];
    let (done, failed) = collect_quorum(&mut state, &responses, 2, 3);
    assert!(done.is_empty());
    assert_eq!(failed, vec![(1, 'x'), (1, 'y')]);
}

#[test]
fn a_responder_counts_once() {
    let mut state: Quorum<u32, char> = Quorum::new();
    let responses = vec![('a', (1, Ok(()))), ('a', (1, Ok(())))];
    let (done, _) = collect_quorum::<u32, char, u8>(&mut state, &responses, 2, 3);
    assert!(done.is_empty());
    let (done, _) =
        collect_quorum::<u32, char, u8>(&mut state, &vec![('a', (1, Ok(())))], 2, 3);
    assert!(done.is_empty());
    let (done, _) =
        collect_quorum::<u32, char, u8>(&mut state, &vec![('b', (1, Ok(())))], 2, 3);
    assert_eq!(done, vec![1]);
}

#[test]
fn answers_find_their_requests() {
    let mut requests = vec![(1u32, 'a'), (2, 'b')];
    let answered = join_responses(&mut requests, &vec![2, 9]);
    assert_eq!(answered, vec![(2, 'b')]);
    assert_eq!(requests, vec![(1, 'a')]);
}
