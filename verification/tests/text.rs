use barrier_cut::text::{buffered_port_name, dynamiclib_suffix, push_decimal, stage_module_name};

#[test]
fn decimal_numerals() {
    for n in [0usize, 7, 9, 10, 11, 99, 100, 101, 4096, 1234567890, usize::MAX] {
        let mut out = String::from("k");
        push_decimal(&mut out, n);
        assert_eq!(out, format!("k{}", n));
    }
}

#[test]
fn port_names_carry_the_key() {
    assert_eq!(buffered_port_name(0), "buffered_0");
    assert_eq!(buffered_port_name(42), "buffered_42");
    assert_ne!(buffered_port_name(1), buffered_port_name(10));
}

#[test]
fn stage_module_names_carry_the_level() {
    assert_eq!(stage_module_name("adder", 1), "adder_1");
    assert_eq!(stage_module_name("adder_1", 12), "adder_1_12");
    assert_eq!(stage_module_name("", 3), "_3");
}

#[test]
fn dynamic_library_suffixes() {
    assert_eq!(dynamiclib_suffix("windows"), ".dll");
    assert_eq!(dynamiclib_suffix("macos"), ".dylib");
    assert_eq!(dynamiclib_suffix("linux"), ".so");
    assert_eq!(dynamiclib_suffix(""), ".so");
    assert_eq!(dynamiclib_suffix("Windows"), ".so");
}
