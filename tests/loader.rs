use shadowenv::loader::{active_directories, Ancestor};

fn a(has_scripts: bool, stops_search: bool) -> Ancestor {
    Ancestor { has_scripts, stops_search }
}

#[test]
fn outermost_first() {
    // current directory first, then each parent up to the root
    let anc = vec![a(true, false), a(false, false), a(true, false), a(false, false)];
    assert_eq!(active_directories(&anc), vec![2, 0]);
}

#[test]
fn sentinel_stops_the_search_above_it() {
    let anc = vec![a(true, false), a(true, true), a(true, false)];
    assert_eq!(active_directories(&anc), vec![1, 0]);
    let anc = vec![a(false, true), a(true, false)];
    assert_eq!(active_directories(&anc), Vec::<usize>::new());
}

#[test]
fn no_configuration_anywhere() {
    assert_eq!(active_directories(&vec![]), Vec::<usize>::new());
    assert_eq!(active_directories(&vec![a(false, false), a(false, false)]), Vec::<usize>::new());
}
