use fortress_models::naming::{Element, MaterialIdentifier, Scanner};
use fortress_models::util::{EventQueue, ResultExt};

#[test]
fn event_queue_is_first_in_first_out() {
    let mut q: EventQueue<u32> = EventQueue::default();
    assert_eq!(q.poll(), None);
    q.new(1);
    q.new(2);
    assert_eq!(q.poll(), Some(1));
    assert_eq!(q.poll(), Some(2));
    assert_eq!(q.poll(), None);
}

#[test]
fn either_takes_both_sides() {
    let a: Result<u32, u32> = Ok(3);
    let b: Result<u32, u32> = Err(4);
    assert_eq!(a.either(), 3);
    assert_eq!(b.either(), 4);
}

#[test]
fn scanner_names_files_by_directories() {
    let mut sc = Scanner::new();
    sc.enter_dir("stone".to_string());
    sc.add_file("{}".to_string());
    sc.enter_dir("granite".to_string());
    sc.add_file("[]".to_string());
    sc.leave_dir();
    sc.leave_dir();
    assert_eq!(sc.num_files(), 2);
    assert_eq!(sc.content(1), "[]");
    let _ = MaterialIdentifier::clone_new_from(&vec![Element::Custom("a".to_string())]);
}

#[test]
fn map_either_keeps_the_side() {
    let a: Result<u32, u32> = Ok(3);
    let b: Result<u32, u32> = Err(4);
    assert_eq!(a.map_either(|x| x * 2), Ok(6));
    assert_eq!(b.map_either(|x| x + 1), Err(5));
}
