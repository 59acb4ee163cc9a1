//! The types that are shared between threads can be.

#![allow(dead_code)]

fn assert_send_sync<T: Send + Sync>() {}

const SHARED: fn() = || {
    assert_send_sync::<syntect::syntax::SyntaxSet>();
    assert_send_sync::<syntect::syntax::SyntaxReference>();
    assert_send_sync::<syntect::parser::ParseLineOutput>();
    assert_send_sync::<syntect::state::ParseWarning>();
    assert_send_sync::<syntect::scope::ScopeStack>();
    assert_send_sync::<syntect::scope::Scope>();
};

#[test]
fn send_sync_asserts_compile() {
    SHARED();
}
