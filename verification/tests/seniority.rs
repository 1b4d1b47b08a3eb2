use cardkit::employee::Employee;
use std::cmp::Ordering;

#[test]
fn test_sort() {
    let expected = vec![
        Employee {
            years_of_service: 0,
            name: "Dillon".to_string(),
        },
        Employee {
            years_of_service: 1,
            name: "Jerry".to_string(),
        },
        Employee {
            years_of_service: 2,
            name: "Carmen".to_string(),
        },
        Employee {
            years_of_service: 2,
            name: "Christy".to_string(),
        },
        Employee {
            years_of_service: 2,
            name: "Marcus".to_string(),
        },
        Employee {
            years_of_service: 5,
            name: "Jovanna".to_string(),
        },
    ];

    let mut list_of_employees = vec![
        Employee {
            name: "Marcus".to_string(),
            years_of_service: 2,
        },
        Employee {
            name: "Jovanna".to_string(),
            years_of_service: 5,
        },
        Employee {
            name: "Carmen".to_string(),
            years_of_service: 2,
        },
        Employee {
            name: "Christy".to_string(),
            years_of_service: 2,
        },
        Employee {
            name: "Dillon".to_string(),
            years_of_service: 0,
        },
        Employee {
            name: "Jerry".to_string(),
            years_of_service: 1,
        },
    ];

    list_of_employees.sort();

    assert_eq!(list_of_employees, expected);
}

fn employee(name: &str, years_of_service: u32) -> Employee {
    Employee { years_of_service, name: name.to_string() }
}

#[test]
fn years_of_service_decide_first() {
    assert_eq!(employee("Zoe", 1).partial_cmp(&employee("Adam", 2)), Some(Ordering::Less));
    assert_eq!(employee("Adam", 3).partial_cmp(&employee("Zoe", 2)), Some(Ordering::Greater));
    assert!(employee("Zoe", 1) < employee("Adam", 2));
}

#[test]
fn names_decide_among_equal_years() {
    assert_eq!(employee("Carmen", 2).partial_cmp(&employee("Christy", 2)), Some(Ordering::Less));
    assert_eq!(employee("Marcus", 2).partial_cmp(&employee("Christy", 2)), Some(Ordering::Greater));
    assert_eq!(employee("Ann", 2).partial_cmp(&employee("Anna", 2)), Some(Ordering::Less));
    assert_eq!(employee("", 2).partial_cmp(&employee("A", 2)), Some(Ordering::Less));
    assert_eq!(employee("Zed", 2).partial_cmp(&employee("adam", 2)), Some(Ordering::Less));
    assert_eq!(employee("Émile", 2).partial_cmp(&employee("Zed", 2)), Some(Ordering::Greater));
    assert_eq!(employee("Carmen", 2).partial_cmp(&employee("Carmen", 2)), Some(Ordering::Equal));
}

#[test]
fn equality_looks_at_years_and_name() {
    assert!(employee("Carmen", 2) == employee("Carmen", 2));
    assert!(employee("Carmen", 2) != employee("Carmen", 3));
    assert!(employee("Carmen", 2) != employee("Carmem", 2));
}

#[test]
fn comparison_agrees_with_the_sort_order() {
    let people = vec![
        employee("Marcus", 2),
        employee("Jovanna", 5),
        employee("Carmen", 2),
        employee("", 2),
        employee("Dillon", 0),
    ];
    for a in people.iter() {
        for b in people.iter() {
            assert_eq!(a.partial_cmp(b), Some(a.cmp(b)));
        }
    }
}
