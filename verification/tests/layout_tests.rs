use mark_hulk::layout::{page_breaks, visible_heights};

#[test]
fn pages_break_before_overflowing_lines() {
    let lines = vec![(0, 10), (10, 20), (20, 30), (30, 40), (40, 50)];
    assert_eq!(page_breaks(&lines, 25), vec![0, 20, 40]);
    assert_eq!(page_breaks(&lines, 100), vec![0]);
    assert_eq!(page_breaks(&Vec::new(), 10), vec![0]);
}

#[test]
fn a_tall_line_gets_its_own_page() {
    let lines = vec![(0, 5), (5, 100), (100, 105)];
    assert_eq!(page_breaks(&lines, 10), vec![0, 5, 100]);
}

#[test]
fn pages_show_text_down_to_the_next_break() {
    assert_eq!(visible_heights(&vec![0, 100, 250], 120), vec![100, 120, 120]);
    assert_eq!(visible_heights(&vec![0], 120), vec![120]);
    assert_eq!(visible_heights(&vec![50, 40], 120), vec![0, 120]);
    assert_eq!(visible_heights(&Vec::new(), 120), Vec::<i32>::new());
}
