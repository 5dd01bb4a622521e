use smart_copy::recursive_stream::{PollRound, RecursiveItem, RecursiveStream2};

/// A future that is ready after a number of polls with a fixed output.
struct Fut<T> {
    pending_polls: u32,
    output: Vec<RecursiveItem<T, Fut<T>>>,
}

fn ready<T>(output: Vec<RecursiveItem<T, Fut<T>>>) -> Fut<T> {
    Fut { pending_polls: 0, output }
}

/// One poll of the stream, every future being polled as the stream decides.
fn poll_next<T>(stream: &mut RecursiveStream2<Fut<T>>) -> Option<Option<Vec<T>>> {
    if stream.is_finished() {
        return Some(None);
    }
    let mut round: PollRound<T> = stream.begin_round();
    while let Some(i) = stream.next_to_poll(&round) {
        let fut = &mut stream.queue[i];
        if fut.pending_polls > 0 {
            fut.pending_polls -= 1;
            stream.on_pending(&mut round);
        } else {
            let output = std::mem::take(&mut fut.output);
            stream.on_ready(&mut round, output);
        }
    }
    RecursiveStream2::<Fut<T>>::end_round(round).map(Some)
}

fn collect<T>(mut stream: RecursiveStream2<Fut<T>>) -> Vec<T> {
    let mut all = vec![];
    loop {
        match poll_next(&mut stream) {
            Some(None) => return all,
            Some(Some(items)) => all.extend(items),
            None => {}
        }
    }
}

#[test]
fn simple() {
    let stream = RecursiveStream2::new(ready(vec![
        RecursiveItem::Item(1),
        RecursiveItem::Item(2),
        RecursiveItem::Future(ready(vec![RecursiveItem::Item(3), RecursiveItem::Item(4)])),
    ]));
    let mut vec = collect(stream);
    vec.sort();
    assert_eq!(vec, vec![1, 2, 3, 4]);
}

fn tree(depth: usize, count: u32, path: Vec<u32>) -> Fut<Vec<u32>> {
    let mut vec = Vec::new();
    for i in 0..count {
        let mut path = path.clone();
        path.push(i);
        vec.push(match depth {
            1 => RecursiveItem::Item(path),
            depth => RecursiveItem::Future(tree(depth - 1, count, path)),
        });
    }
    ready(vec)
}

#[test]
fn recursive_function() {
    let mut vec = collect(RecursiveStream2::new(tree(3, 2, vec![])));
    vec.sort();
    assert_eq!(
        vec,
        vec![
            vec![0, 0, 0],
            vec![0, 0, 1],
            vec![0, 1, 0],
            vec![0, 1, 1],
            vec![1, 0, 0],
            vec![1, 0, 1],
            vec![1, 1, 0],
            vec![1, 1, 1]
        ]
    )
}

#[test]
fn a_ready_future_is_replaced_by_its_futures_in_place() {
    let mut stream = RecursiveStream2 { queue: vec![10u32, 20, 30] };
    let mut round: PollRound<char> = stream.begin_round();
    stream.on_pending(&mut round);
    assert_eq!(stream.next_to_poll(&round), Some(1));
    stream.on_ready(
        &mut round,
        vec![
            RecursiveItem::Item('a'),
            RecursiveItem::Future(21),
            RecursiveItem::Item('b'),
            RecursiveItem::Future(22),
        ],
    );
    assert_eq!(stream.queue, vec![10, 21, 22, 30]);
    assert_eq!(round.items, vec!['a', 'b']);
    assert_eq!(round.next, 1);
    stream.on_ready(&mut round, vec![]);
    assert_eq!(stream.queue, vec![10, 22, 30]);
    assert_eq!(RecursiveStream2::<u32>::end_round(round), Some(vec!['a', 'b']));
}

#[test]
fn a_round_with_only_pending_futures_yields_nothing() {
    let stream = RecursiveStream2 { queue: vec![1u32, 2] };
    let mut round: PollRound<u8> = stream.begin_round();
    stream.on_pending(&mut round);
    stream.on_pending(&mut round);
    assert_eq!(stream.next_to_poll(&round), None);
    assert_eq!(RecursiveStream2::<u32>::end_round(round), None);
}

#[test]
fn pending_futures_are_polled_again() {
    let mut slow = ready(vec![RecursiveItem::Item(vec![7])]);
    slow.pending_polls = 2;
    let mut stream = RecursiveStream2::new(slow);
    assert_eq!(poll_next(&mut stream), None);
    assert_eq!(poll_next(&mut stream), None);
    assert_eq!(poll_next(&mut stream), Some(Some(vec![vec![7]])));
    assert_eq!(poll_next(&mut stream), Some(None));
}

#[test]
fn an_empty_stream_is_finished() {
    let stream: RecursiveStream2<u32> = RecursiveStream2 { queue: vec![] };
    assert!(stream.is_finished());
}
