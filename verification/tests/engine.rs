use cube_complement::algebra::{and_literal, AND, OR};
use cube_complement::cofactor::{negativeCofactor, positiveCofactor, try_cofactor};
use cube_complement::complement::direct_complement;
use cube_complement::counting::{
    count_all_dont_cares, count_all_not_dont_cares, cubelist_contains_all_dont_cares_cube,
};
use cube_complement::error::CubeError;
use cube_complement::logic::{CubeList, TriLogic};

#[test]
fn test_contains_all_dont_cares_cube() {
    assert!(
        !cubelist_contains_all_dont_cares_cube(&vec![]),
        "case0: empty cubelist"
    );
    assert!(
        !cubelist_contains_all_dont_cares_cube(&vec![vec![
            TriLogic::True,
            TriLogic::DontCare,
            TriLogic::DontCare,
        ]]),
        "case1: [[True, DontCare, DontCare]]"
    );
    assert!(
        cubelist_contains_all_dont_cares_cube(&vec![
            vec![
                TriLogic::DontCare,
                TriLogic::DontCare,
                TriLogic::DontCare,
            ],
            vec![TriLogic::True, TriLogic::False, TriLogic::DontCare],
        ]),
        "case2: [[DontCare, ...]]"
    );
}

#[test]
fn test_count_don_cares() {
    let cube = [
        TriLogic::True,
        TriLogic::False,
        TriLogic::DontCare,
        TriLogic::DontCare,
        TriLogic::False,
        TriLogic::DontCare,
        TriLogic::True,
    ];
    assert!(count_all_dont_cares(&cube) == 3, "count all dont_cares");
    assert!(
        count_all_not_dont_cares(&cube) == 4,
        "count all not dont_cares"
    );
}

#[test]
fn cofactors_test() {
    let clist: CubeList = vec![
        vec![
            TriLogic::True,
            TriLogic::True,
            TriLogic::DontCare,
            TriLogic::True,
        ],
        vec![
            TriLogic::DontCare,
            TriLogic::True,
            TriLogic::False,
            TriLogic::DontCare,
        ],
    ];

    let mut fa = positiveCofactor(&clist, 0);
    let fc = positiveCofactor(&clist, 2);

    assert!(fa.len() == 2);
    assert!(fc.len() == 1);
    assert!(
        fa.first().unwrap()
            == &[
                TriLogic::DontCare,
                TriLogic::True,
                TriLogic::DontCare,
                TriLogic::True,
            ],
        "fa -- 1st cube"
    );
    assert!(
        fa.pop()
            == Some(vec![
                TriLogic::DontCare,
                TriLogic::True,
                TriLogic::False,
                TriLogic::DontCare,
            ]),
        "fa -- 2nd cube"
    );
    assert!(
        fc.first().unwrap()
            == &[
                TriLogic::True,
                TriLogic::True,
                TriLogic::DontCare,
                TriLogic::True,
            ],
        "fc -- 1st cube"
    );
}

#[test]
#[allow(non_snake_case)]
fn AND_test() {
    let clist: CubeList = vec![
        vec![
            TriLogic::DontCare,
            TriLogic::True,
            TriLogic::True,
            TriLogic::DontCare,
        ],
        vec![
            TriLogic::DontCare,
            TriLogic::DontCare,
            TriLogic::True,
            TriLogic::False,
        ],
    ];
    let mut anda = AND(1, &clist);
    assert!(anda.len() == 2, "and_test list length check");
    assert!(
        anda.first().unwrap()
            == &[
                TriLogic::True,
                TriLogic::True,
                TriLogic::True,
                TriLogic::DontCare,
            ],
        "and_test 1st cube"
    );
    assert!(
        anda.pop()
            == Some(vec![
                TriLogic::True,
                TriLogic::DontCare,
                TriLogic::True,
                TriLogic::False,
            ]),
        "and_test 2nd cube"
    );
}

#[test]
#[allow(non_snake_case)]
fn OR_test() {
    let clist1: CubeList = vec![
        vec![
            TriLogic::DontCare,
            TriLogic::True,
            TriLogic::True,
            TriLogic::DontCare,
        ],
        vec![
            TriLogic::DontCare,
            TriLogic::DontCare,
            TriLogic::True,
            TriLogic::False,
        ],
    ];
    let clist2: CubeList = vec![
        vec![
            TriLogic::True,
            TriLogic::False,
            TriLogic::True,
            TriLogic::DontCare,
        ],
        vec![
            TriLogic::DontCare,
            TriLogic::DontCare,
            TriLogic::True,
            TriLogic::False,
        ],
    ];
    let or_list = OR(&clist1, &clist2);
    assert!(or_list.len() == 4, "or_test list length check");
}

#[test]
fn direct_complement_test() {
    let clist: CubeList = vec![vec![
        TriLogic::DontCare,
        TriLogic::True,
        TriLogic::False,
        TriLogic::True,
    ]];
    let compl_list = direct_complement(&clist);
    assert!(compl_list.len() == 3);
    let mut cnt = 0;
    for c in compl_list.iter() {
        match (cnt, c) {
            (0, c1) => {
                assert!(
                    c1 == &[
                        TriLogic::DontCare,
                        TriLogic::False,
                        TriLogic::DontCare,
                        TriLogic::DontCare,
                    ]
                )
            }
            (1, c2) => {
                assert!(
                    c2 == &[
                        TriLogic::DontCare,
                        TriLogic::DontCare,
                        TriLogic::True,
                        TriLogic::DontCare,
                    ]
                )
            }
            (2, c3) => {
                assert!(
                    c3 == &[
                        TriLogic::DontCare,
                        TriLogic::DontCare,
                        TriLogic::DontCare,
                        TriLogic::False,
                    ]
                )
            }
            _ => panic!("impossible happened"),
        }
        cnt += 1;
    }
}

#[test]
fn or_keeps_order_and_duplicates() {
    let shared = vec![TriLogic::DontCare, TriLogic::True];
    let p: CubeList = vec![vec![TriLogic::True, TriLogic::False], shared.clone()];
    let n: CubeList = vec![shared.clone()];
    let both = OR(&p, &n);
    assert_eq!(
        both,
        vec![
            vec![TriLogic::True, TriLogic::False],
            shared.clone(),
            shared
        ]
    );
    assert_eq!(OR(&vec![], &vec![]), CubeList::new());
}

#[test]
fn negative_cofactor_mirrors_positive() {
    let clist: CubeList = vec![
        vec![TriLogic::True, TriLogic::True],
        vec![TriLogic::False, TriLogic::DontCare],
        vec![TriLogic::DontCare, TriLogic::False],
    ];
    assert_eq!(
        negativeCofactor(&clist, 0),
        vec![
            vec![TriLogic::DontCare, TriLogic::DontCare],
            vec![TriLogic::DontCare, TriLogic::False],
        ]
    );
    assert_eq!(
        positiveCofactor(&clist, 0),
        vec![
            vec![TriLogic::DontCare, TriLogic::True],
            vec![TriLogic::DontCare, TriLogic::False],
        ]
    );
}

#[test]
fn cofactors_account_for_every_cube() {
    let clist: CubeList = vec![
        vec![TriLogic::True, TriLogic::False, TriLogic::DontCare],
        vec![TriLogic::False, TriLogic::False, TriLogic::True],
        vec![TriLogic::DontCare, TriLogic::True, TriLogic::True],
        vec![TriLogic::True, TriLogic::DontCare, TriLogic::False],
    ];
    for x in 0..3 {
        let pos = positiveCofactor(&clist, x);
        let neg = negativeCofactor(&clist, x);
        let positive = clist.iter().filter(|c| c[x] == TriLogic::True).count();
        let negative = clist.iter().filter(|c| c[x] == TriLogic::False).count();
        let free = clist.iter().filter(|c| c[x] == TriLogic::DontCare).count();
        assert_eq!(pos.len(), positive + free);
        assert_eq!(neg.len(), negative + free);
        assert_eq!(pos.len() + negative, clist.len());
        assert_eq!(neg.len() + positive, clist.len());
        assert!(pos.iter().all(|c| c[x] == TriLogic::DontCare));
        assert!(neg.iter().all(|c| c[x] == TriLogic::DontCare));
    }
}

#[test]
fn and_with_negated_literal() {
    let clist: CubeList = vec![vec![TriLogic::True, TriLogic::DontCare, TriLogic::False]];
    assert_eq!(
        AND(-2, &clist),
        vec![vec![TriLogic::True, TriLogic::False, TriLogic::False]]
    );
    assert_eq!(AND(2, &vec![]), CubeList::new());
}

#[test]
fn and_literal_never_overwrites() {
    let clist: CubeList = vec![
        vec![TriLogic::DontCare, TriLogic::True],
        vec![TriLogic::False, TriLogic::DontCare],
    ];
    assert_eq!(and_literal(1, &clist), Err(CubeError::InvariantViolation));
    assert_eq!(and_literal(-1, &clist), Err(CubeError::InvariantViolation));
    assert_eq!(and_literal(-2, &clist), Err(CubeError::InvariantViolation));
}

#[test]
fn and_literal_refuses_unknown_variables() {
    let clist: CubeList = vec![vec![TriLogic::DontCare, TriLogic::DontCare]];
    assert_eq!(and_literal(0, &clist), Err(CubeError::IndexOutOfRange));
    assert_eq!(and_literal(3, &clist), Err(CubeError::IndexOutOfRange));
    assert_eq!(and_literal(-3, &clist), Err(CubeError::IndexOutOfRange));
    assert_eq!(and_literal(isize::MIN, &clist), Err(CubeError::IndexOutOfRange));
}

#[test]
fn and_literal_tags_free_variables() {
    let clist: CubeList = vec![
        vec![TriLogic::DontCare, TriLogic::True],
        vec![TriLogic::DontCare, TriLogic::DontCare],
    ];
    assert_eq!(
        and_literal(-1, &clist),
        Ok(vec![
            vec![TriLogic::False, TriLogic::True],
            vec![TriLogic::False, TriLogic::DontCare],
        ])
    );
    assert_eq!(and_literal(1, &clist), Ok(AND(1, &clist)));
}

#[test]
fn counters_split_the_cube() {
    let cube = vec![
        TriLogic::DontCare,
        TriLogic::True,
        TriLogic::False,
        TriLogic::DontCare,
        TriLogic::DontCare,
    ];
    assert_eq!(count_all_dont_cares(&cube), 3);
    assert_eq!(count_all_not_dont_cares(&cube), 2);
    assert_eq!(
        count_all_dont_cares(&cube) + count_all_not_dont_cares(&cube),
        cube.len()
    );
    assert_eq!(count_all_dont_cares(&[]), 0);
    assert_eq!(count_all_not_dont_cares(&[]), 0);
}

#[test]
fn trit_order_is_total() {
    assert!(TriLogic::True < TriLogic::False);
    assert!(TriLogic::False < TriLogic::DontCare);
    let mut sorted = vec![TriLogic::DontCare, TriLogic::True, TriLogic::False];
    sorted.sort();
    assert_eq!(
        sorted,
        vec![TriLogic::True, TriLogic::False, TriLogic::DontCare]
    );
}

#[test]
fn cofactor_of_unknown_variable_is_refused() {
    let clist: CubeList = vec![
        vec![TriLogic::True, TriLogic::False],
        vec![TriLogic::DontCare, TriLogic::True],
    ];
    assert_eq!(try_cofactor(&clist, 2, true), Err(CubeError::IndexOutOfRange));
    assert_eq!(try_cofactor(&clist, 7, false), Err(CubeError::IndexOutOfRange));
    let ragged: CubeList = vec![vec![TriLogic::True, TriLogic::False], vec![TriLogic::True]];
    assert_eq!(try_cofactor(&ragged, 1, true), Err(CubeError::IndexOutOfRange));
    assert_eq!(try_cofactor(&clist, 1, true), Ok(positiveCofactor(&clist, 1)));
    assert_eq!(try_cofactor(&clist, 1, false), Ok(negativeCofactor(&clist, 1)));
    assert_eq!(
        try_cofactor(&clist, 0, false),
        Ok(vec![vec![TriLogic::DontCare, TriLogic::True]])
    );
    assert_eq!(try_cofactor(&vec![], 9, true), Ok(vec![]));
}
