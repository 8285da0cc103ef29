use slyce::{parse, Elements, Index, Iter, ParseError, Slice};

fn positions(mut it: Iter) -> Vec<usize> {
    let mut out = Vec::new();
    while let Some(i) = it.next() {
        out.push(i);
    }
    out
}

fn elements<T: Copy>(mut it: Elements<'_, T>) -> Vec<T> {
    let mut out = Vec::new();
    while let Some(x) = it.next() {
        out.push(*x);
    }
    out
}

fn slice(start: Index, end: Index, step: Option<isize>) -> Slice {
    Slice { start, end, step }
}

const ARR: [i32; 5] = [10, 20, 30, 40, 50];

#[test]
fn ascending_default_selects_all() {
    for len in [0usize, 1, 4, 9] {
        let want: Vec<usize> = (0..len).collect();
        assert_eq!(positions(slice(Index::Default, Index::Default, None).indices(len)), want);
    }
}

#[test]
fn descending_default_selects_all_reversed() {
    for len in [0usize, 1, 4, 9] {
        let want: Vec<usize> = (0..len).rev().collect();
        assert_eq!(positions(slice(Index::Default, Index::Default, Some(-1)).indices(len)), want);
    }
}

#[test]
fn forward_and_backward_windows_agree() {
    let len = 6usize;
    for a in 0..=len {
        for b in a..=len {
            let forward = positions(slice(Index::Head(a), Index::Head(b), Some(1)).indices(len));
            let end = if a == 0 { Index::Default } else { Index::Tail(len - a + 1) };
            let mut backward = positions(slice(Index::Tail(len - b + 1), end, Some(-1)).indices(len));
            backward.reverse();
            assert_eq!(forward, backward);
        }
    }
}

#[test]
fn out_of_range_bounds_clamp() {
    let len = 4usize;
    let all = vec![0, 1, 2, 3];
    assert_eq!(positions(slice(Index::Head(1), Index::Head(4), None).indices(len)), vec![1, 2, 3]);
    assert_eq!(positions(slice(Index::Head(1), Index::Head(usize::MAX), None).indices(len)), vec![1, 2, 3]);
    assert_eq!(positions(slice(Index::Tail(4), Index::Default, None).indices(len)), all);
    assert_eq!(positions(slice(Index::Tail(5), Index::Default, None).indices(len)), all);
    assert_eq!(positions(slice(Index::Default, Index::Tail(5), Some(-1)).indices(len)), vec![3, 2, 1, 0]);
    assert_eq!(positions(slice(Index::Default, Index::Tail(usize::MAX), Some(-1)).indices(len)), vec![3, 2, 1, 0]);
    assert_eq!(positions(slice(Index::Head(usize::MAX), Index::Default, Some(-1)).indices(len)), vec![3, 2, 1, 0]);
}

#[test]
fn zero_step_is_empty_for_every_length() {
    for len in [0usize, 1, 4, usize::MAX] {
        assert_eq!(positions(slice(Index::Default, Index::Default, Some(0)).indices(len)), Vec::<usize>::new());
        assert_eq!(positions(slice(Index::Head(0), Index::Tail(0), Some(0)).indices(len)), Vec::<usize>::new());
    }
}

#[test]
fn huge_tail_saturates() {
    let len = 4usize;
    for n in [usize::MAX, usize::MAX - 1, 1usize << 63] {
        assert_eq!(
            positions(slice(Index::Tail(n), Index::Default, None).indices(len)),
            positions(slice(Index::Tail(4), Index::Default, None).indices(len))
        );
        assert_eq!(
            positions(slice(Index::Head(0), Index::Tail(n), None).indices(len)),
            positions(slice(Index::Head(0), Index::Tail(4), None).indices(len))
        );
    }
    assert_eq!(positions(slice(Index::Tail(usize::MAX), Index::Default, Some(-1)).indices(len)), Vec::<usize>::new());
}

#[test]
fn huge_array_length_and_step() {
    let len = usize::MAX;
    assert_eq!(
        positions(slice(Index::Tail(2), Index::Default, None).indices(len)),
        vec![usize::MAX - 2, usize::MAX - 1]
    );
    assert_eq!(positions(slice(Index::Default, Index::Default, Some(isize::MAX)).indices(len)).len(), 3);
    assert_eq!(
        positions(slice(Index::Default, Index::Default, Some(isize::MIN)).indices(len)),
        vec![usize::MAX - 1, usize::MAX - 1 - (1usize << 63)]
    );
}

#[test]
fn elements_of_five() {
    let render = |s: Slice| elements(s.apply(&ARR));
    assert_eq!(render(slice(Index::Tail(3), Index::Default, None)), vec![30, 40, 50]);
    assert_eq!(render(slice(Index::from(-3isize), Index::Default, None)), vec![30, 40, 50]);
    assert_eq!(render(slice(Index::Tail(3), Index::from(None::<isize>), None)), vec![30, 40, 50]);
    assert_eq!(render(slice(Index::Tail(3), Index::Default, Some(-1))), vec![30, 20, 10]);
    assert_eq!(render(slice(Index::Head(4), Index::Head(0), Some(-1))), vec![50, 40, 30, 20]);
    assert_eq!(render(slice(Index::Default, Index::Head(0), Some(-1))), vec![50, 40, 30, 20]);
    assert_eq!(render(slice(Index::Tail(1000), Index::from(2000isize), None)), vec![10, 20, 30, 40, 50]);
}

#[test]
fn positions_of_five() {
    let s = |start: Option<isize>, end: Option<isize>, step: Option<isize>| {
        positions(Slice { start: start.into(), end: end.into(), step }.indices(5))
    };
    assert_eq!(s(None, None, Some(2)), vec![0, 2, 4]);
    assert_eq!(s(Some(4), Some(0), Some(-1)), vec![4, 3, 2, 1]);
}

#[test]
fn apply_on_empty_array() {
    let empty: [i32; 0] = [];
    assert_eq!(elements(slice(Index::Default, Index::Default, None).apply(&empty)), Vec::<i32>::new());
    assert_eq!(elements(slice(Index::Tail(1), Index::Head(0), Some(-1)).apply(&empty)), Vec::<i32>::new());
}

#[test]
fn walk_stays_exhausted() {
    let mut it = slice(Index::Default, Index::Default, None).indices(1);
    assert_eq!(it.next(), Some(0));
    assert_eq!(it.next(), None);
    assert_eq!(it.next(), None);
}

#[test]
fn conversions_into_index() {
    assert_eq!(Index::from(0usize), Index::Head(0));
    assert_eq!(Index::from(7isize), Index::Head(7));
    assert_eq!(Index::from(-1isize), Index::Tail(1));
    assert_eq!(Index::from(isize::MIN), Index::Tail(1usize << 63));
    assert_eq!(Index::from(-5i32), Index::Tail(5));
    assert_eq!(Index::from(i32::MIN), Index::Tail(1usize << 31));
    assert_eq!(Index::from(Some(3i32)), Index::Head(3));
    assert_eq!(Index::from(Some(-3isize)), Index::Tail(3));
    assert_eq!(Index::from(Some(9usize)), Index::Head(9));
    assert_eq!(Index::from(None::<usize>), Index::Default);
    assert_eq!(Index::default(), Index::Default);
}

#[test]
fn index_text() {
    assert_eq!(Index::Head(0).to_string(), "0");
    assert_eq!(Index::Head(120).to_string(), "120");
    assert_eq!(Index::Tail(7).to_string(), "-7");
    assert_eq!(Index::Head(usize::MAX).to_string(), usize::MAX.to_string());
    assert_eq!(Index::Default.to_string(), "");
}

#[test]
fn slice_text_extremes() {
    let s = Slice { start: Index::Tail(usize::MAX), end: Index::Head(10), step: Some(isize::MIN) };
    assert_eq!(s.to_string(), format!("[-{}:10:{}]", usize::MAX, isize::MIN));
}

#[test]
fn parse_fields() {
    let s = parse("[3:-17:-2]").unwrap();
    assert_eq!(s.start, Index::Head(3));
    assert_eq!(s.end, Index::Tail(17));
    assert_eq!(s.step, Some(-2));

    let s = parse("[::]").unwrap();
    assert_eq!(s.start, Index::Default);
    assert_eq!(s.end, Index::Default);
    assert_eq!(s.step, None);

    let s = parse("[-0:-:9223372036854775807]trailing").unwrap();
    assert_eq!(s.start, Index::Head(0));
    assert_eq!(s.end, Index::Default);
    assert_eq!(s.step, Some(isize::MAX));
}

#[test]
fn parse_errors() {
    assert_eq!(parse("").unwrap_err(), ParseError { offset: 0 });
    assert_eq!(parse("1:2:3]").unwrap_err(), ParseError { offset: 0 });
    assert_eq!(parse("[1:2]").unwrap_err(), ParseError { offset: 4 });
    assert_eq!(parse("[a::]").unwrap_err(), ParseError { offset: 1 });
    assert_eq!(parse("[::1").unwrap_err(), ParseError { offset: 4 });
    assert_eq!(parse("[9223372036854775808::]").unwrap_err(), ParseError { offset: 1 });
    assert_eq!(parse("[:-9223372036854775808:]").unwrap_err(), ParseError { offset: 3 });
}

#[test]
fn text_round_trip() {
    for s in [
        Slice { start: Index::Default, end: Index::Default, step: None },
        Slice { start: Index::Head(4), end: Index::Tail(1), step: Some(-3) },
        Slice { start: Index::Tail(12), end: Index::Head(0), step: Some(isize::MAX) },
    ] {
        let back = parse(&s.to_string()).unwrap();
        assert_eq!(back.start, s.start);
        assert_eq!(back.end, s.end);
        assert_eq!(back.step, s.step);
    }
}

#[test]
fn tail_zero_start_is_one_past_the_end() {
    assert_eq!(positions(slice(Index::Tail(0), Index::Default, None).indices(4)), Vec::<usize>::new());
    assert_eq!(positions(slice(Index::Tail(0), Index::Default, Some(-1)).indices(4)), vec![3, 2, 1, 0]);
    assert_eq!(positions(slice(Index::Head(1), Index::Tail(0), None).indices(4)), vec![1, 2, 3]);
}
