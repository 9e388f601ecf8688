use sysctl_conf::parse;

fn lines(v: &[&str]) -> Vec<String> {
    v.iter().map(|s| s.to_string()).collect()
}

fn sample_conf() -> Vec<String> {
    lines(&[
        "#",
        "kernel.domainname = example.com",
        "; A value containing a space is written to the sysctl.",
        "kernel.modprobe = /sbin/mod probe",
        "token1 = value1 # this is comment",
        "token2 = value2 ; this is comment",
        "token3 = value3 ;# this is comment",
        "token4 = value4 #; this is comment",
    ])
}

fn typed_conf() -> Vec<String> {
    lines(&[
        "kernel.domainname = example.com",
        "kernel.modprobe = /sbin/mod probe",
        "param_string = this is string",
        "param_bool = true",
        "param_int = -12345",
        "param_uint = 12345",
        "param_float = 0.12345",
    ])
}

fn typed_schema() -> Vec<String> {
    lines(&[
        "kernel.domainname -> string",
        "kernel.modprobe -> string",
        "param_string -> string",
        "param_bool -> bool",
        "param_int -> int",
        "param_uint -> uint",
        "param_float -> float",
    ])
}

fn check_sample(conf: Vec<String>) {
    let map = parse(&conf, None).unwrap();
    assert_eq!(map.get("kernel.domainname"), Some(&"example.com".to_string()));
    assert_eq!(map.get("kernel.modprobe"), Some(&"/sbin/mod probe".to_string()));
    assert_eq!(map.get("token1"), Some(&"value1".to_string()));
    assert_eq!(map.get("token2"), Some(&"value2".to_string()));
    assert_eq!(map.get("token3"), Some(&"value3".to_string()));
    assert_eq!(map.len(), 6);
}

fn check_typed(conf: Vec<String>, schema: Vec<String>) {
    let map = parse(&conf, Some(&schema)).unwrap();
    assert_eq!(map.get("kernel.domainname"), Some(&"example.com".to_string()));
    assert_eq!(map.get("kernel.modprobe"), Some(&"/sbin/mod probe".to_string()));
    assert_eq!(map.get("param_string"), Some(&"this is string".to_string()));
    assert_eq!(map.get("param_bool"), Some(&"true".to_string()));
    assert_eq!(map.get("param_int"), Some(&"-12345".to_string()));
    assert_eq!(map.get("param_uint"), Some(&"12345".to_string()));
    assert_eq!(map.get("param_float"), Some(&"0.12345".to_string()));
    assert_eq!(map.len(), 7);
}

#[test]
fn lib_test_parse() {
    check_sample(sample_conf());
}

#[test]
fn lib_test_parse_with_scheme() {
    check_typed(typed_conf(), typed_schema());
}

#[test]
fn tests_test_parse() {
    check_sample(sample_conf());
}

#[test]
fn tests_test_parse_with_scheme() {
    check_typed(typed_conf(), typed_schema());
}
