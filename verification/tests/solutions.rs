use std::str::FromStr;
use vrp_verifier::solution::{Solution, SolutionParser};

#[test]
fn read_gh_solution() {
    let sol_str = "Instance name: rc1_4_10\nAuthors: \nDate:\nReference: \nSolution\nRoute 1: 1 2 3\nRoute 2: 4 5 6\nRoute 3: 7\nRoute 4: 8 9 10 11 12\n";

    let sol = Solution::from_str(sol_str);

    assert_eq!(sol.as_ref().err(), None);

    assert_eq!(
        sol.unwrap(),
        Solution {
            instance_name: "rc1_4_10".to_string(),
            routes: vec![
                vec![1, 2, 3],
                vec![4, 5, 6],
                vec![7],
                vec![8, 9, 10, 11, 12],
            ],
        }
    );
}

#[test]
fn read_ll_solution() {
    let sol_str = "Instance name: LR2_8_1\nAuthors: \nDate:\nReference: \nSolution\nRoute 1: 1 2 3\nRoute 2: 4 5 6\nRoute 3: 7\nRoute 4: 8 9 10 11 12\n";

    let sol = Solution::from_str(sol_str);

    assert_eq!(sol.as_ref().err(), None);

    assert_eq!(
        sol.unwrap(),
        Solution {
            instance_name: "lr2_8_1".to_string(),
            routes: vec![
                vec![1, 2, 3],
                vec![4, 5, 6],
                vec![7],
                vec![8, 9, 10, 11, 12],
            ],
        }
    );
}

#[test]
fn save_solution() {
    let sol = Solution {
        instance_name: "LC1_8_7".to_string(),
        routes: vec![vec![7, 8], vec![9, 10, 11], vec![5, 4, 3, 2, 1], vec![6]],
    };
    let today = chrono::Local::now().format("%Y-%m-%d").to_string();
    assert_eq!(
        sol.to_text(&today),
        format!(
            "Instance name: LC1_8_7\nAuthors: \nDate: {today}\nReference: \nSolution\nRoute 1: 7 8\nRoute 2: 9 10 11\nRoute 3: 5 4 3 2 1\nRoute 4: 6\n"
        )
    );
}

#[test]
fn whitespaces_are_ok() {
    let sol_str = "Instance name\t:  \t   rc1_4_10\nAuthors : \nDate:\nReference    : \nSolution\nRoute 1: 1   2     3\nRoute    2   : 4\t5 6\nRoute\t 3: 7\nRoute 4: 8 9\t10     11\t12         \n";

    let sol = Solution::from_str(sol_str);

    assert_eq!(sol.as_ref().err(), None);

    assert_eq!(
        sol.unwrap(),
        Solution {
            instance_name: "rc1_4_10".to_string(),
            routes: vec![
                vec![1, 2, 3],
                vec![4, 5, 6],
                vec![7],
                vec![8, 9, 10, 11, 12],
            ],
        }
    );
}

#[test]
fn nonsequential_routes() {
    let sol_str = "Instance name: rc1_4_10\nAuthors: \nDate:\nReference: \nSolution\nRoute 0: 1 2 3\nRoute 7 : 4 5 6\nRoute 3: 7\nRoute: 8 9 10 11 12\n";

    let sol = Solution::from_str(sol_str);

    assert_eq!(sol.as_ref().err(), None);

    assert_eq!(
        sol.unwrap(),
        Solution {
            instance_name: "rc1_4_10".to_string(),
            routes: vec![
                vec![1, 2, 3],
                vec![4, 5, 6],
                vec![7],
                vec![8, 9, 10, 11, 12],
            ],
        }
    );
}

#[test]
fn whitespace_in_instance_name() {
    let sol_str = "Instance name: rc 1 _ \t 4_10\nAuthors: \nDate:\nReference: \nSolution\nRoute 0: 1 2 3\n";

    let sol = Solution::from_str(sol_str);

    assert_eq!(sol.as_ref().err(), None);

    assert_eq!(
        sol.unwrap(),
        Solution {
            instance_name: "rc1_4_10".to_string(),
            routes: vec![vec![1, 2, 3],],
        }
    );
}

#[test]
fn no_instance_name() {
    let sol_str = "Instance name:\nAuthors: \nDate:\nReference: \nSolution\nRoute 0: 1 2 3\n";

    let sol = Solution::from_str(sol_str);

    assert_eq!(sol.as_ref().err(), None);

    assert_eq!(
        sol.unwrap(),
        Solution {
            instance_name: "".to_string(),
            routes: vec![vec![1, 2, 3],],
        }
    );
}

#[test]
fn whatever_in_other_fields() {
    let sol_str = "Instance name:\nAuthors: my pet hamster\nDate: whatever 2023-13-72\nReference: 中文范例文本نص مثال عربي\nSolution\nRoute 0: 1 2 3\n";

    let sol = Solution::from_str(sol_str);

    assert_eq!(sol.as_ref().err(), None);

    assert_eq!(
        sol.unwrap(),
        Solution {
            instance_name: "".to_string(),
            routes: vec![vec![1, 2, 3],],
        }
    );
}

#[test]
fn good_instance_names() {
    for pdp in ["", "l"] {
        for t in ["c1", "c2", "r1", "r2", "rc1", "rc2"] {
            for s in (2..=10).step_by(2) {
                for i in 1..=10 {
                    let inst = format!("{pdp}{t}_{s}_{i}");
                    assert!(SolutionParser::matches_instance_name(&inst));
                    let inst = format!("{pdp}{t}_{s}_{i}").to_uppercase();
                    assert!(SolutionParser::matches_instance_name(&inst));
                }
            }
        }
    }
}

#[test]
fn bad_instance_names() {
    assert!(!SolutionParser::matches_instance_name("l"));
    assert!(!SolutionParser::matches_instance_name("rc"));
    assert!(!SolutionParser::matches_instance_name("r"));
    assert!(!SolutionParser::matches_instance_name("lrc"));
    assert!(!SolutionParser::matches_instance_name("r_2_10"));
    assert!(!SolutionParser::matches_instance_name("r1_1_10"));
    assert!(!SolutionParser::matches_instance_name("m1_1_10"));
    assert!(!SolutionParser::matches_instance_name("r1_m_10"));
    assert!(!SolutionParser::matches_instance_name("r1_2_xyz"));
    assert!(!SolutionParser::matches_instance_name("r1_5_10"));
    assert!(!SolutionParser::matches_instance_name("r1_2_"));
    assert!(!SolutionParser::matches_instance_name("r2210"));
    assert!(!SolutionParser::matches_instance_name("lr2210"));

    assert!(SolutionParser::matches_instance_name("r1_2_12"));
    // this is technically ok as a name prefix, but the whole line fails:
    assert!(!SolutionParser::matches_instance_line("Instance name: r1_2_12\n"));
}

#[test]
fn unparsable_route_token_reads_as_zero() {
    let sol_str = "Instance name:\nAuthors: \nDate:\nReference: \nSolution\nRoute 1: 1 99999999999999999999999 3\n";

    let sol = Solution::from_str(sol_str).unwrap();
    assert_eq!(sol.routes, vec![vec![1, 0, 3]]);
}

#[test]
fn malformed_solution_line_is_refused() {
    let sol_str = "Instance name:\nAuthors: \nDate:\nReference: \nSolution\nRte 1: 1 2 3\n";

    let sol = Solution::from_str(sol_str);
    assert_eq!(
        sol,
        Err("can't parse solution: unexpected line `Rte 1: 1 2 3'".to_string())
    );
}

#[test]
fn missing_header_is_refused() {
    let sol = Solution::from_str("Instance name: rc1_4_10\n");
    assert_eq!(
        sol,
        Err("can't parse solution: incomplete header".to_string())
    );
}

#[test]
fn parsing_twice_yields_equal_models() {
    let sol_str = "Instance name: rc1_4_10\nAuthors: \nDate:\nReference: \nSolution\nRoute 1: 1 2 3\nRoute 2: 4 5 6\n";
    let a = Solution::from_str(sol_str).unwrap();
    let b = Solution::from_str(sol_str).unwrap();
    assert_eq!(a, b);

    let inst_str = "12\t100\n0\t1\t2\t0\t4\t100\t6\t0\t0\n1\t2\t3\t2\t5\t100\t7\t0\t2\n2\t3\t4\t-2\t6\t100\t8\t1\t0\n";
    let c = vrp_verifier::instance::Instance::from_str(inst_str).unwrap();
    let d = vrp_verifier::instance::Instance::from_str(inst_str).unwrap();
    assert_eq!(c, d);
}
