use calepinage::{Calepinage, CalepinageError, Deck, Junction, Line, Plank, PlankHeap};
use calepinage::calepine;

fn a_calepinage() -> Calepinage {
    Calepinage::default()
}

fn plank_line(lengths: &[usize]) -> Line {
    let mut line = Line::default();
    for &length in lengths {
        line = line.with_plank(Plank { length });
    }
    line
}

#[test]
fn should_return_planks_when_deck_is_really_small() {
    let deck = Deck::new(1, 1).unwrap();
    let plank_heap = PlankHeap::default().add(1, 1);

    let actual = calepine(plank_heap, deck);

    let expected = Calepinage(vec![Line(vec![Plank { length: 1 }])]);
    assert_eq!(actual, Ok(expected));
}

#[test]
fn should_return_list_of_2_planks() {
    let deck = Deck::new(2, 1).unwrap();
    let plank_heap = PlankHeap::default().add(2, 1);

    let actual = calepine(plank_heap, deck);

    let expected = Calepinage(vec![Line(vec![Plank { length: 1 }, Plank { length: 1 }])]);
    assert_eq!(actual, Ok(expected));
}

#[test]
fn should_use_only_one_plank_if_does_not_need_more() {
    let deck = Deck::new(1, 1).unwrap();
    let plank_heap = PlankHeap::default().add(2, 1);

    let actual = calepine(plank_heap, deck);

    let expected = Calepinage(vec![Line(vec![Plank { length: 1 }])]);
    assert_eq!(actual, Ok(expected));
}

#[test]
fn should_use_different_size() {
    let deck = Deck::new(3, 1).unwrap();
    let plank_heap = PlankHeap::default().add(1, 1).add(1, 2);

    let Calepinage(actual) = calepine(plank_heap, deck).unwrap();
    let flattened: Vec<Plank> = actual.into_iter().flat_map(|Line(line)| line).collect();

    let expected: Vec<Plank> = vec![Plank { length: 2 }, Plank { length: 1 }];
    for plank in &expected {
        assert!(flattened.contains(plank));
    }
}

#[test]
fn should_use_only_required_planks() {
    let deck = Deck::new(4, 1).unwrap();
    let plank_heap = PlankHeap::default().add(1, 1).add(2, 3);

    let Calepinage(actual) = calepine(plank_heap, deck).unwrap();
    let flattened: Vec<Plank> = actual.into_iter().flat_map(|Line(line)| line).collect();

    let expected: Vec<Plank> = vec![Plank { length: 3 }, Plank { length: 1 }];
    for plank in &expected {
        assert!(flattened.contains(plank));
    }
    assert_eq!(flattened.len(), 2);
}

#[test]
fn should_use_longest_planks_first() {
    let deck = Deck::new(4, 1).unwrap();
    let plank_heap = PlankHeap::default().add(10, 1).add(2, 3);

    let actual = calepine(plank_heap, deck);

    let expected: Calepinage = a_calepinage().with_line(plank_line(&[3, 1]));
    assert_eq!(actual, Ok(expected));
}

#[test]
fn should_calepine_2_lines_deck() {
    let deck = Deck::new(2, 2).unwrap();
    let plank_heap = PlankHeap::default().add(4, 1);

    let actual = calepine(plank_heap, deck);

    let expected: Calepinage = a_calepinage()
        .with_line(plank_line(&[1, 1]))
        .with_line(plank_line(&[1, 1]));

    assert_eq!(actual, Ok(expected));
}

#[test]
fn should_calepine_2_lines_deck_with_different_sizes() {
    let deck = Deck::new(2, 2).unwrap();
    let plank_heap = PlankHeap::default().add(2, 1).add(1, 2);

    let actual = calepine(plank_heap, deck);

    let expected: Calepinage = a_calepinage()
        .with_line(plank_line(&[2]))
        .with_line(plank_line(&[1, 1]));

    assert_eq!(actual, Ok(expected));
}

#[test]
fn should_return_an_error_if_not_enough_planks() {
    let deck = Deck::new(2, 2).unwrap();
    let plank_heap = PlankHeap::default().add(1, 1);

    let result = calepine(plank_heap, deck);

    assert_eq!(result, Err(CalepinageError::NotEnoughPlanks));
}

#[test]
fn should_return_an_error_if_not_enough_planks_but_some_planks_too_big() {
    let deck = Deck::new(2, 2).unwrap();
    let plank_heap = PlankHeap::default().add(1, 100);

    let result = calepine(plank_heap, deck);

    assert_eq!(
        result,
        Err(CalepinageError::OnlyUnusablePlanksRemaining(
            "[Plank { length: 100 }]".to_string()
        ))
    );
}

#[test]
fn should_invert_longest_plank_in_each_line() {
    let deck = Deck::new(3, 2).unwrap();
    let plank_heap = PlankHeap::default().add(2, 1).add(2, 2);

    let actual = calepine(plank_heap, deck);

    let expected: Calepinage = a_calepinage()
        .with_line(plank_line(&[2, 1]))
        .with_line(plank_line(&[1, 2]));

    assert_eq!(actual, Ok(expected));
}

fn list_adjacent_junctions(lhs: &Line, rhs: &Line) -> Vec<Junction> {
    let junctions_lhs = lhs.compute_junction();
    let junctions_rhs = rhs.compute_junction();
    junctions_lhs
        .into_iter()
        .filter(|j| junctions_rhs.contains(j))
        .collect()
}

fn find_first_adjacent_junction(calepinage: &Calepinage) -> Option<Junction> {
    let Calepinage(lines) = calepinage;
    let list_junctions = lines
        .windows(2)
        .flat_map(|pair| list_adjacent_junctions(&pair[0], &pair[1]))
        .collect::<Vec<Junction>>();
    list_junctions.first().cloned()
}

#[test]
fn failing_pbt_test_case_2() {
    let deck = Deck {
        length: 12,
        width: 2,
    };
    let plank_heap = PlankHeap::from_planks(vec![
        Plank { length: 10 },
        Plank { length: 10 },
        Plank { length: 2 },
        Plank { length: 2 },
    ]);
    let result = calepine(plank_heap, deck);
    let calepinage = result.unwrap();
    let line_sizes = calepinage
        .clone()
        .0
        .iter()
        .map(|line| line.0.iter().fold(0, |total, plank| total + plank.length))
        .collect::<Vec<usize>>();
    println!("{:?}", calepinage);
    println!("{:?}", line_sizes);

    assert!(find_first_adjacent_junction(&calepinage).is_none());
}

#[test]
fn calepinage_test_make_stash_algo_fail() {
    let deck = Deck {
        length: 12,
        width: 3,
    };
    let plank_heap = PlankHeap::from_planks(vec![
        Plank { length: 10 },
        Plank { length: 10 },
        Plank { length: 10 },
        Plank { length: 2 },
        Plank { length: 2 },
        Plank { length: 2 },
    ]);
    let result = calepine(plank_heap, deck);
    let calepinage = result.unwrap();

    assert!(find_first_adjacent_junction(&calepinage).is_none());
}
