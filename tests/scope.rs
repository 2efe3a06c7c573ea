use scopes_rs::scope::AsScopeRef;

fn as_string_ref<T: AsScopeRef<String>>(t: &T) -> &String {
    t.as_scope_ref()
}

#[test]
fn test_as_scope_ref() {
    let scope = "foo".to_string();

    assert_eq!(&scope, as_string_ref(&scope));
    assert_eq!(&scope, as_string_ref(&&scope));
    assert_eq!(&scope, as_string_ref(&&&scope));
    assert_eq!(&scope, <&&String as AsScopeRef<String>>::as_scope_ref(&&&scope));
}
