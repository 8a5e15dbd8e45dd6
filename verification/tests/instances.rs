use std::str::FromStr;
use vrp_verifier::instance::Instance;
use vrp_verifier::point::Point;

#[test]
fn read_gh_instance() {
    let instance = "c1_1_1\n\nVEHICLE\nNUMBER CAPACITY\n12 100\n\nCUSTOMER\nCUST NO.  XCOORD.    YCOORD.    DEMAND   READY TIME  DUE DATE   SERVICE TIME\n\n0 1 2 0 4 100 6\n1 2 3 4 5 6 7\n2 3 4 5 6 7 8\n3 4 5 6 7 10 9\n";
    let inst = Instance::from_str(instance);

    assert_eq!(inst.as_ref().err(), None);

    assert_eq!(
        inst.unwrap(),
        Instance {
            name: String::from(""),
            vehicles: 12,
            max_capacity: 100,
            pts: vec![
                Point {
                    id: 0,
                    x: 1,
                    y: 2,
                    demand: 0,
                    start: 4,
                    due: 100,
                    service: 6,
                    pickup_delivery: None,
                },
                Point {
                    id: 1,
                    x: 2,
                    y: 3,
                    demand: 4,
                    start: 5,
                    due: 6,
                    service: 7,
                    pickup_delivery: None,
                },
                Point {
                    id: 2,
                    x: 3,
                    y: 4,
                    demand: 5,
                    start: 6,
                    due: 7,
                    service: 8,
                    pickup_delivery: None,
                },
                Point {
                    id: 3,
                    x: 4,
                    y: 5,
                    demand: 6,
                    start: 7,
                    due: 10,
                    service: 9,
                    pickup_delivery: None,
                },
            ],
            is_pdp: false,
        }
    );
}

#[test]
fn read_ll_instance() {
    let instance = "12\t100\n0\t1\t2\t0\t4\t100\t6\t0\t0\n1\t2\t3\t4\t5\t6\t7\t0\t2\n2\t3\t4\t-4\t6\t7\t8\t1\t0\n3\t4\t5\t6\t7\t10\t9\t0\t4\n4\t5\t6\t-6\t8\t10\t10\t3\t0\n";
    let inst = Instance::from_str(instance);

    assert_eq!(inst.as_ref().err(), None);

    assert_eq!(
        inst.unwrap(),
        Instance {
            name: String::from(""),
            vehicles: 12,
            max_capacity: 100,
            pts: vec![
                Point {
                    id: 0,
                    x: 1,
                    y: 2,
                    demand: 0,
                    start: 4,
                    due: 100,
                    service: 6,
                    pickup_delivery: Some((0, 0)),
                },
                Point {
                    id: 1,
                    x: 2,
                    y: 3,
                    demand: 4,
                    start: 5,
                    due: 6,
                    service: 7,
                    pickup_delivery: Some((0, 2)),
                },
                Point {
                    id: 2,
                    x: 3,
                    y: 4,
                    demand: -4,
                    start: 6,
                    due: 7,
                    service: 8,
                    pickup_delivery: Some((1, 0)),
                },
                Point {
                    id: 3,
                    x: 4,
                    y: 5,
                    demand: 6,
                    start: 7,
                    due: 10,
                    service: 9,
                    pickup_delivery: Some((0, 4)),
                },
                Point {
                    id: 4,
                    x: 5,
                    y: 6,
                    demand: -6,
                    start: 8,
                    due: 10,
                    service: 10,
                    pickup_delivery: Some((3, 0)),
                },
            ],
            is_pdp: true,
        }
    );
}

#[test]
fn instance_row_with_wrong_field_count() {
    let instance = "12 100\n0 1 2 3\n";
    let inst = Instance::from_str(instance);

    assert_eq!(
        inst,
        Err("expected 7 or 9 integers in line `0 1 2 3', have 4 numbers".to_string())
    );
}

#[test]
fn instance_needs_two_points() {
    let instance = "12 100\n0 1 2 0 4 100 6\n";
    let inst = Instance::from_str(instance);

    assert_eq!(
        inst,
        Err("the instance needs at least two points (depot and one client to visit), it has 1"
        .to_string())
    );
}

#[test]
fn instance_rejects_misplaced_ids() {
    let instance = "12 100\n0 0 0 0 0 100 0\n5 1 0 1 0 100 0\n";
    let inst = Instance::from_str(instance);

    assert_eq!(inst, Err("points [1] do not have correct ids".to_string()));
}

#[test]
fn instance_rejects_demand_over_capacity() {
    let instance = "12 10 \n0 0 0 0 0 100 0\n1 1 0 11 0 100 0\n";
    let inst = Instance::from_str(instance);

    assert_eq!(
        inst,
        Err("point 1 can not be visited because its demands are greater than vehicle capacity"
        .to_string())
    );
}

#[test]
fn instance_rejects_negative_demand_without_pairs() {
    let instance = "12 100\n0 0 0 0 0 100 0\n1 1 0 -1 0 100 0\n";
    let inst = Instance::from_str(instance);

    assert_eq!(
        inst,
        Err("point 1 has negative demands and this is not pdp".to_string())
    );
}

#[test]
fn instance_rejects_nonzero_depot_demand() {
    let instance = "12 100\n0 0 0 7 0 100 0\n1 1 0 1 0 100 0\n";
    let inst = Instance::from_str(instance);

    assert_eq!(inst, Err("depots demand is non-zero (7)".to_string()));
}

#[test]
fn instance_rejects_backwards_window() {
    let instance = "12 100\n0 0 0 0 0 100 0\n1 1 0 1 50 40 0\n";
    let inst = Instance::from_str(instance);

    assert_eq!(
        inst,
        Err("point 1 can not be visited because the due time (40) is before start (50)"
        .to_string())
    );
}

#[test]
fn instance_rejects_unreachable_point() {
    let instance = "12 100\n0 0 0 0 0 100 0\n1 60 0 1 0 10 0\n";
    let inst = Instance::from_str(instance);

    assert_eq!(
        inst,
        Err("earliest possible arrival (60.00000000000000000000000000000000000000) from depot to point 1 is after the points due time 10"
        .to_string())
    );
}

#[test]
fn instance_rejects_late_return() {
    let instance = "12 100\n0 0 0 0 0 100 0\n1 60 0 1 0 70 0\n";
    let inst = Instance::from_str(instance);

    assert_eq!(
        inst,
        Err("earliest possible return to depot (120.00000000000000000000000000000000000000) to point 1 is after the depot due time 100"
        .to_string())
    );
}

#[test]
fn instance_rejects_mismatched_pair() {
    let instance = "12 100\n0 0 0 0 0 100 0\t0 0\n1 1 0 1 0 100 0\t0 2\n2 0 1 -1 0 100 0\t0 0\n";
    let inst = Instance::from_str(instance);

    assert_eq!(
        inst,
        Err("point 1 and 2 are a pdp pair but their pickup and deliveries do not match"
        .to_string())
    );
}

#[test]
fn instance_rejects_pair_demand_mismatch() {
    let instance = "12 100\n0 0 0 0 0 100 0\t0 0\n1 1 0 3 0 100 0\t0 2\n2 0 1 -2 0 100 0\t1 0\n";
    let inst = Instance::from_str(instance);

    assert_eq!(
        inst,
        Err("point 1 demands 3 does not sum to 0 with ther pdp pair 2\t0\t1\t-2\t0\t100\t0\t1\t0\n demands -2"
        .to_string())
    );
}

#[test]
fn instance_without_header_is_refused() {
    let inst = Instance::from_str("hello\n");
    assert_eq!(
        inst,
        Err("Instance parsing problem: no vehicles and capacity line".to_string())
    );
}

#[test]
fn instance_renders_back() {
    let instance = "12\t100\n0\t1\t2\t0\t4\t100\t6\t0\t0\n1\t2\t3\t2\t5\t100\t7\t0\t2\n2\t3\t4\t-2\t6\t100\t8\t1\t0\n";
    let inst = Instance::from_str(instance).unwrap();
    assert_eq!(
        inst.to_text(),
        "12\t100\t0\n0\t1\t2\t0\t4\t100\t6\t0\t0\n1\t2\t3\t2\t5\t100\t7\t0\t2\n2\t3\t4\t-2\t6\t100\t8\t1\t0\n"
    );
}

#[test]
fn instance_rejects_pair_outside_pdp() {
    // a seven-field depot row keeps the instance out of pickup/delivery
    // mode, so a later nine-field row is refused
    let instance = "12 100\n0 0 0 0 0 100 0\n1 1 0 1 0 100 0 0 2\n2 0 1 -1 0 100 0 1 0\n";
    let inst = Instance::from_str(instance);

    assert_eq!(
        inst,
        Err("point 1 has pickup and delivery but the instance is not pdp".to_string())
    );
}

#[test]
fn instance_rejects_pair_with_both_sides() {
    let instance = "12 100\n0 0 0 0 0 100 0 0 0\n1 1 0 1 0 100 0 2 2\n2 0 1 -1 0 100 0 1 0\n";
    let inst = Instance::from_str(instance);

    assert_eq!(
        inst,
        Err("point 1 has nonzero both pickup (2) and delivery (2)".to_string())
    );
}

#[test]
fn instance_rejects_pair_outside_range() {
    let instance = "12 100\n0 0 0 0 0 100 0 0 0\n1 1 0 1 0 100 0 0 9\n2 0 1 -1 0 100 0 1 0\n";
    let inst = Instance::from_str(instance);

    assert_eq!(
        inst,
        Err("points 1 pdp pair 9 does not refer to any legal point".to_string())
    );
}

#[test]
fn instance_rejects_partner_without_pair() {
    let instance = "12 100\n0 0 0 0 0 100 0 0 0\n1 1 0 1 0 100 0 0 2\n2 0 1 -1 0 100 0\n";
    let inst = Instance::from_str(instance);

    assert_eq!(inst, Err("point 1 pdp pair 2 is not pdp".to_string()));
}

#[test]
fn instance_rejects_depot_with_pair() {
    let instance = "12 100\n0 0 0 0 0 100 0 0 1\n1 1 0 0 0 100 0 0 0\n";
    let inst = Instance::from_str(instance);

    assert_eq!(inst, Err("depots pdp pair is not (0, 0)".to_string()));
}
