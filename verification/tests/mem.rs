use idstore::mem::{sizeof_operator, PermanentString, Person};

#[test]
fn test_drop_person() {
    // define a person
    let me = Person { name: "Caleb".to_string(), age: 26 };
    println!("{:?}", me);

    drop(me);
}

#[test]
fn permanent_string_round_trip() {
    let p = PermanentString::new("hello");
    assert_eq!(p.get_temporary_reference(), "hello");
    let empty = PermanentString::new("");
    assert_eq!(empty.get_temporary_reference(), "");
}

#[test]
fn sizeof_operator_runs() {
    sizeof_operator();
}
