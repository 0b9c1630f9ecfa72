use cube_complement::binate::{
    binate_comes_first, count_polarities, most_binate_variable, there_are_binate_vars,
    unate_comes_first, BinateVarAttrs,
};
use cube_complement::logic::{CubeList, TriLogic};

const T: TriLogic = TriLogic::True;
const F: TriLogic = TriLogic::False;
const X: TriLogic = TriLogic::DontCare;

#[test]
fn counts_each_polarity() {
    let clist: CubeList = vec![vec![T, F, X], vec![T, T, X], vec![F, X, X]];
    assert_eq!(
        count_polarities(&clist, 3),
        vec![
            BinateVarAttrs { true_count: 2, complement_count: 1, index: 0 },
            BinateVarAttrs { true_count: 1, complement_count: 1, index: 1 },
            BinateVarAttrs { true_count: 0, complement_count: 0, index: 2 },
        ]
    );
}

#[test]
fn binate_variable_with_most_occurrences_wins() {
    let clist: CubeList = vec![vec![T, F, T], vec![T, T, F], vec![X, F, X]];
    assert_eq!(most_binate_variable(&clist), 1);
}

#[test]
fn binate_variable_beats_more_frequent_unate_one() {
    let clist: CubeList = vec![vec![T, T], vec![T, F], vec![T, X]];
    assert_eq!(most_binate_variable(&clist), 1);
}

#[test]
fn equal_totals_are_decided_by_skew() {
    // Variable 0 occurs twice in each polarity, variable 1 three times
    // positively and once negated: equal totals, and the greater skew wins
    // over the smaller index.
    let clist: CubeList = vec![vec![T, T], vec![T, T], vec![F, T], vec![F, F]];
    assert_eq!(most_binate_variable(&clist), 1);
    let swapped: CubeList = vec![vec![T, T], vec![T, T], vec![T, F], vec![F, F]];
    assert_eq!(most_binate_variable(&swapped), 0);
}

#[test]
fn equal_totals_and_skews_are_decided_by_index() {
    let clist: CubeList = vec![vec![X, T, F], vec![X, F, T]];
    assert_eq!(most_binate_variable(&clist), 1);
}

#[test]
fn unate_list_splits_on_most_frequent_variable() {
    let clist: CubeList = vec![vec![T, X, F], vec![X, X, F], vec![T, T, F]];
    assert_eq!(most_binate_variable(&clist), 2);
    let tied: CubeList = vec![vec![X, T, F], vec![X, T, F]];
    assert_eq!(most_binate_variable(&tied), 1);
    let absent: CubeList = vec![vec![X, X, X]];
    assert_eq!(most_binate_variable(&absent), 0);
}

#[test]
fn selection_is_repeatable() {
    let clist: CubeList = vec![
        vec![T, F, X, T],
        vec![F, F, T, X],
        vec![X, T, T, F],
        vec![T, X, F, F],
    ];
    let first = most_binate_variable(&clist);
    for _ in 0..10 {
        assert_eq!(most_binate_variable(&clist), first);
        assert_eq!(most_binate_variable(&clist.clone()), first);
    }
    assert!(first < 4);
}

#[test]
fn orders_of_choice() {
    let a = BinateVarAttrs { true_count: 3, complement_count: 1, index: 5 };
    let b = BinateVarAttrs { true_count: 2, complement_count: 2, index: 1 };
    let c = BinateVarAttrs { true_count: 2, complement_count: 3, index: 7 };
    assert!(binate_comes_first(&a, &b));
    assert!(!binate_comes_first(&b, &a));
    assert!(binate_comes_first(&c, &a));
    assert!(!binate_comes_first(&a, &a));
    assert!(unate_comes_first(&b, &a));
    assert!(!unate_comes_first(&a, &b));
    assert!(unate_comes_first(&c, &b));
    assert!(there_are_binate_vars(&vec![a, b]));
    let one_sided = BinateVarAttrs { true_count: 4, complement_count: 0, index: 0 };
    assert!(!there_are_binate_vars(&vec![one_sided]));
    assert!(!there_are_binate_vars(&vec![]));
}
