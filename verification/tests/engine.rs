use xengine::engine_name;

#[test]
fn lib_engine_name_is_consistent() {
    assert_eq!(engine_name(), "XEngine");
}

#[test]
fn main_engine_name_is_consistent() {
    assert_eq!(engine_name(), "XEngine");
    assert_eq!(format!("Hello, world! ({})", engine_name()), "Hello, world! (XEngine)");
}
