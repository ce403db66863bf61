use repak::oodle::{candidates, library_name};

#[test]
fn the_library_is_looked_for_in_order() {
    let place = |name: &str| Some(name.to_string());
    let bare = library_name().to_string();
    assert_eq!(bare, "oo2core_9_win64.dll");
    assert_eq!(candidates(place("x"), place("y"), bare.clone()), ["x", "y", "oo2core_9_win64.dll"]);
    assert_eq!(candidates(None, place("y"), bare.clone()), ["y", "oo2core_9_win64.dll"]);
    assert_eq!(candidates(place("x"), None, bare.clone()), ["x", "oo2core_9_win64.dll"]);
    assert_eq!(candidates(None, None, bare), ["oo2core_9_win64.dll"]);
}
