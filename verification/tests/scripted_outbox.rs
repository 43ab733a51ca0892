//! The outbox that the scripted peers drain.

use wire::scripted::Outbox;
use wire::transport::io::ErrorKind;

// Tests that output is taken in as it is, also behind output that failed.
#[test]
fn test_outbox_takes_output_as_it_is() {
    let mut outbox = Outbox::new();
    assert_eq!(outbox.take_frames(), Some(vec![]));
    assert_eq!(outbox.write(&[5, 0]), Ok(()));
    outbox.set_broken(true);
    assert_eq!(outbox.write(&[6, 0]), Err(ErrorKind::BrokenPipe));
    outbox.set_broken(false);
    assert_eq!(outbox.write(&[0, 1]), Ok(()));
    assert_eq!(outbox.take_frames(), None);
    assert_eq!(outbox.write(&[0]), Ok(()));
    assert_eq!(outbox.take_frames(), Some(vec![vec![5], vec![], vec![1]]));
    assert_eq!(outbox.take_frames(), Some(vec![]));
}
