use task_engine::handle::ValueHandle;
use task_engine::output::{Output, OutputContent, ReadError};

#[test]
fn empty_output_read_is_an_error() {
    let mut o = Output::new();
    assert_eq!(o.read(3), Err(ReadError::Empty));
    // The failed read still registered the reader.
    let notify = o.link(ValueHandle::TaskOutput(9));
    assert_eq!(notify, Some(vec![3]));
}

#[test]
fn link_then_read_returns_the_handle() {
    let mut o = Output::new();
    let notify = o.link(ValueHandle::TaskCell(4, 2));
    assert_eq!(notify, None); // nobody depends on it yet
    assert_eq!(o.read(1), Ok(ValueHandle::TaskCell(4, 2)));
    assert_eq!(o.read_untracked(), Ok(ValueHandle::TaskCell(4, 2)));
}

#[test]
fn equal_link_twice_notifies_exactly_once() {
    let mut o = Output::new();
    o.track_read(11);
    let first = o.link(ValueHandle::TaskOutput(5));
    let second = o.link(ValueHandle::TaskOutput(5));
    assert_eq!(first, Some(vec![11]));
    assert_eq!(second, None);
    assert_eq!(o.updates, 1);
}

#[test]
fn linking_the_current_target_is_a_noop() {
    let mut o = Output::new();
    o.track_read(8);
    o.link(ValueHandle::TaskCell(2, 0));
    let updates_before = o.updates;
    let notify = o.link(ValueHandle::TaskCell(2, 0));
    assert_eq!(notify, None);
    assert_eq!(o.updates, updates_before);
    // A different handle does replace and notify.
    let notify = o.link(ValueHandle::TaskCell(2, 1));
    assert_eq!(notify, Some(vec![8]));
}

#[test]
fn error_always_replaces_and_notifies() {
    let mut o = Output::new();
    o.track_read(6);
    let n1 = o.error(41);
    let n2 = o.error(41);
    assert_eq!(n1, Some(vec![6]));
    assert_eq!(n2, Some(vec![6]));
    assert_eq!(o.updates, 2);
    assert_eq!(o.read_untracked(), Err(ReadError::UserError(41)));
    assert!(matches!(o.content, OutputContent::Error(41)));
}
