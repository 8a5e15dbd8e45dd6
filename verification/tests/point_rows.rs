use std::str::FromStr;
use vrp_verifier::point::Point;

#[test]
fn instance_read_gh_point() {
    let line = " 0    1      2    3   4   5  6";
    let point = Point::from_str(line).unwrap();

    assert_eq!(
        point,
        Point {
            id: 0,
            x: 1,
            y: 2,
            demand: 3,
            start: 4,
            due: 5,
            service: 6,
            pickup_delivery: None
        }
    );
}

#[test]
fn instance_read_gh_point_not_enough() {
    let line = "0 1 2 3";
    let point = Point::from_str(line);

    assert_eq!(
        point,
        Err(format!(
            "expected 7 or 9 integers in line `{line}', have 4 numbers"
        ))
    );
}

#[test]
fn instance_read_gh_point_8_values() {
    let line = "0 1 2 3 4 5 6 7";
    let point = Point::from_str(line);

    assert_eq!(
        point,
        Err(format!(
            "expected 7 or 9 integers in line `{line}', have 8 numbers"
        ))
    );
}

#[test]
fn instance_read_gh_point_too_many() {
    let line = "0 1 2 3 4 5 6 7 8 9";
    let point = Point::from_str(line);

    assert_eq!(
        point,
        Err(format!(
            "expected 7 or 9 integers in line `{line}', have 10 numbers"
        ))
    );
}

#[test]
fn instance_read_ll_point() {
    let line = "0\t1\t2\t3\t4\t5\t6\t7\t8";
    let point = Point::from_str(line).unwrap();

    assert_eq!(
        point,
        Point {
            id: 0,
            x: 1,
            y: 2,
            demand: 3,
            start: 4,
            due: 5,
            service: 6,
            pickup_delivery: Some((7, 8))
        }
    );
}

#[test]
fn point_row_bad_token() {
    let line = "0 1 2x 3 4 5 6";
    let point = Point::from_str(line);

    assert_eq!(
        point,
        Err(format!(
            "can't parse line `{line}': error in trying to parse field 2: `2x' can not be parsed "
        ))
    );
}

#[test]
fn point_row_overflowing_token() {
    let line = "0 1 99999999999 3 4 5 6";
    let point = Point::from_str(line);

    assert_eq!(
        point,
        Err(format!(
            "can't parse line `{line}': error in trying to parse field 2: `99999999999' can not be parsed "
        ))
    );
}

#[test]
fn point_row_renders_back() {
    let p = Point {
        id: 7,
        x: -3,
        y: 20,
        demand: 4,
        start: 0,
        due: 100,
        service: 10,
        pickup_delivery: None,
    };
    assert_eq!(
        p.to_text(),
        "    7      -3         20          4          0        100         10\n"
    );

    let q = Point { pickup_delivery: Some((0, 9)), ..p };
    assert_eq!(q.to_text(), "7\t-3\t20\t4\t0\t100\t10\t0\t9\n");
}
