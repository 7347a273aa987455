//! What a host may share across threads.
use maxsim_lut::{Codes, Dispatch, DocView, Kernel, Lut, PreparedQuery, Scorer};

#[test]
fn public_types_are_send_and_sync() {
    fn assert_send_sync<T: Send + Sync>() {}
    assert_send_sync::<Lut>();
    assert_send_sync::<PreparedQuery>();
    assert_send_sync::<Scorer<'static>>();
    assert_send_sync::<DocView<'static>>();
    assert_send_sync::<Codes<'static>>();
    assert_send_sync::<Kernel>();
    assert_send_sync::<Dispatch>();
}
