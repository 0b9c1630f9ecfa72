use cube_complement::complement::{direct_complement, try_complement, Complement};
use cube_complement::error::CubeError;
use cube_complement::logic::{evaluate, evaluate_cube, every_cube_has_length, CubeList, TriLogic};

const T: TriLogic = TriLogic::True;
const F: TriLogic = TriLogic::False;
const X: TriLogic = TriLogic::DontCare;

fn values(num_vars: usize, assignment: usize) -> Vec<bool> {
    (0..num_vars).map(|i| (assignment >> i) & 1 == 1).collect()
}

fn cube_is_one(cube: &[TriLogic], assignment: usize) -> bool {
    cube.iter().enumerate().all(|(i, t)| {
        let value = (assignment >> i) & 1 == 1;
        match t {
            TriLogic::True => value,
            TriLogic::False => !value,
            TriLogic::DontCare => true,
        }
    })
}

fn list_is_one(list: &CubeList, assignment: usize) -> bool {
    list.iter().any(|c| cube_is_one(c, assignment))
}

#[test]
fn value_of_a_cube() {
    let cube = vec![T, F, X];
    assert!(evaluate_cube(&cube, &[true, false, false]));
    assert!(evaluate_cube(&cube, &[true, false, true]));
    assert!(!evaluate_cube(&cube, &[false, false, true]));
    assert!(!evaluate_cube(&cube, &[true, true, true]));
    assert!(evaluate_cube(&vec![], &[]));
}

#[test]
fn value_of_a_cube_list() {
    let list: CubeList = vec![vec![T, T, X], vec![F, X, T]];
    assert!(evaluate(&list, &[true, true, false]));
    assert!(evaluate(&list, &[false, true, true]));
    assert!(!evaluate(&list, &[true, false, true]));
    assert!(!evaluate(&vec![], &[true, true, false]));
    assert!(evaluate(&vec![vec![X, X, X]], &[false, false, false]));
    for assignment in 0..8 {
        assert_eq!(
            evaluate(&list, &values(3, assignment)),
            list_is_one(&list, assignment)
        );
    }
}

fn sorted(mut list: CubeList) -> CubeList {
    list.sort();
    list
}

#[test]
fn complement_of_nothing_is_everything() {
    assert_eq!(Complement(3, &vec![]), vec![vec![X, X, X]]);
    assert_eq!(Complement(0, &vec![]), vec![Vec::<TriLogic>::new()]);
}

#[test]
fn complement_of_everything_is_nothing() {
    assert_eq!(Complement(3, &vec![vec![X, X, X]]), CubeList::new());
    assert_eq!(
        Complement(2, &vec![vec![T, F], vec![X, X], vec![F, F]]),
        CubeList::new()
    );
}

#[test]
fn single_cube_follows_de_morgan() {
    let result = direct_complement(&vec![vec![T, F, X, T]]);
    assert_eq!(result.len(), 3);
    assert_eq!(
        sorted(result),
        sorted(vec![vec![F, X, X, X], vec![X, T, X, X], vec![X, X, X, F]])
    );
    assert_eq!(
        Complement(4, &vec![vec![T, F, X, T]]),
        vec![vec![F, X, X, X], vec![X, T, X, X], vec![X, X, X, F]]
    );
}

#[test]
fn single_free_cube_has_no_literal_to_negate() {
    assert_eq!(direct_complement(&vec![vec![X, X]]), CubeList::new());
}

#[test]
fn three_literal_cube_end_to_end() {
    let result = Complement(3, &vec![vec![T, T, F]]);
    assert_eq!(
        sorted(result),
        sorted(vec![vec![F, X, X], vec![X, F, X], vec![X, X, T]])
    );
}

#[test]
fn general_case_splits_and_recombines() {
    // x0 x1 + !x0 x2: variable 0 is the only binate one.
    let list: CubeList = vec![vec![T, T, X], vec![F, X, T]];
    assert_eq!(
        Complement(3, &list),
        vec![vec![T, F, X], vec![F, X, F]]
    );
}

#[test]
fn complement_is_zero_where_the_list_is_one() {
    let lists: Vec<CubeList> = vec![
        vec![vec![T, T, X, X], vec![F, X, T, X], vec![X, F, F, T]],
        vec![vec![T, X, X, X], vec![X, T, X, X], vec![X, X, T, X]],
        vec![vec![T, F, T, F], vec![F, T, F, T], vec![T, T, T, T], vec![F, F, F, F]],
        vec![vec![T, F, X, X], vec![T, F, X, X]],
        vec![vec![T, X, X, X], vec![F, X, X, X]],
    ];
    for list in lists.iter() {
        let result = Complement(4, list);
        assert!(every_cube_has_length(&result, 4));
        for assignment in 0..16 {
            assert_eq!(
                list_is_one(&result, assignment),
                !list_is_one(list, assignment)
            );
            assert_eq!(
                evaluate(&result, &values(4, assignment)),
                !evaluate(list, &values(4, assignment))
            );
        }
    }
}

#[test]
fn complementing_twice_gives_the_function_back() {
    let lists: Vec<CubeList> = vec![
        vec![],
        vec![vec![X, X, X]],
        vec![vec![T, F, X]],
        vec![vec![T, T, X], vec![F, X, T]],
        vec![vec![T, F, T], vec![F, T, F], vec![X, T, T]],
        vec![vec![T, X, X], vec![T, X, X], vec![X, F, X]],
    ];
    for list in lists.iter() {
        let twice = Complement(3, &Complement(3, list));
        for assignment in 0..8 {
            assert_eq!(list_is_one(&twice, assignment), list_is_one(list, assignment));
            assert_eq!(
                evaluate(&twice, &values(3, assignment)),
                evaluate(list, &values(3, assignment))
            );
        }
    }
}

#[test]
fn ill_formed_lists_are_refused() {
    let ragged: CubeList = vec![vec![T, F], vec![T]];
    assert_eq!(try_complement(2, &ragged), Err(CubeError::InvariantViolation));
    assert_eq!(
        try_complement(3, &vec![vec![T, F]]),
        Err(CubeError::InvariantViolation)
    );
    assert!(!every_cube_has_length(&ragged, 2));
}

#[test]
fn well_formed_lists_pass_the_check() {
    let list: CubeList = vec![vec![T, T, X], vec![F, X, T]];
    assert_eq!(try_complement(3, &list), Ok(Complement(3, &list)));
    assert_eq!(try_complement(5, &vec![]), Ok(vec![vec![X, X, X, X, X]]));
}
