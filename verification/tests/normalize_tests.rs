use rkl::normalize::filled_with_middle_name;

#[test]
fn test_insert_middle_name() {
    assert_eq!(filled_with_middle_name("kg2", "-sophon"), "kg-sophon2");
    assert_eq!(filled_with_middle_name("base22", "-sophon"), "base-sophon22");
    assert_eq!(filled_with_middle_name("notebook", "-sophon"), "notebook-sophon");
    assert_eq!(filled_with_middle_name("gk22", "-sophon"), "gk-sophon22");
    assert_eq!(filled_with_middle_name("datanode1", "-hdfs"), "datanode-hdfs1");
    assert_eq!(filled_with_middle_name("2222", "-test"), "-test2222");
    assert_eq!(filled_with_middle_name("s2s22", "-test"), "s2s-test22");
    assert_eq!(filled_with_middle_name("222s22", "-test"), "222s-test22");
    assert_eq!(filled_with_middle_name("s", "-test"), "s-test");
}

#[test]
fn test_insert_middle_name_keeps_length() {
    let cases = [("kg2", "-sophon"), ("", "-x"), ("2222", "-test"), ("abc", "")];
    for (frag, middle) in cases {
        let out = filled_with_middle_name(frag, middle);
        assert_eq!(out.chars().count(), frag.chars().count() + middle.chars().count());
    }
}

#[test]
fn test_insert_middle_name_empty_infix() {
    assert_eq!(filled_with_middle_name("kg2", ""), "kg2");
    assert_eq!(filled_with_middle_name("", ""), "");
    assert_eq!(filled_with_middle_name("", "-mid"), "-mid");
}
