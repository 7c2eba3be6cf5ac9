use yiran_json::json_mapping::FromJson;
use yiran_json::json_mapping::ToJson;
use yiran_json::json_mapping::TestEnum;
use yiran_json::json_mapping::TestStruct;
use yiran_json::json_mapping::TestStruct2;
use yiran_json::json_mapping::TpType;
use yiran_json::JsonNumber;

#[test]
fn test_tuple() {
    let tp = TpType(42, 3, JsonNumber::from_text("3.14").unwrap());
    let tp_json = tp.to_json();
    let another_tp = TpType::from_json(&tp_json).unwrap();
    assert_eq!(tp, another_tp);
}

#[test]
fn test_enum() {
    let first_variant = TestEnum::Variant1();
    let first_variant_json = first_variant.to_json();
    let another_first_variant = TestEnum::from_json(&first_variant_json).unwrap();
    assert_eq!(first_variant, another_first_variant);

    let second_variant = TestEnum::Variant2("Hi, Dad!".to_string());
    let second_variant_json = second_variant.to_json();
    let another_second_variant = TestEnum::from_json(&second_variant_json).unwrap();
    assert_eq!(second_variant, another_second_variant);

    let third_variant = TestEnum::Variant3(42, JsonNumber::from_text("3.14").unwrap());
    let third_variant_json = third_variant.to_json();
    let another_third_variant = TestEnum::from_json(&third_variant_json).unwrap();
    assert_eq!(third_variant, another_third_variant);

    let fourth_variant = TestEnum::Variant4 {
        field1: 42,
        field2: JsonNumber::from_text("3.14").unwrap(),
    };
    let fourth_variant_json = fourth_variant.to_json();
    let another_fourth_variant = TestEnum::from_json(&fourth_variant_json).unwrap();
    assert_eq!(fourth_variant, another_fourth_variant);
}

#[test]
fn test_struct() {
    let test_struct = TestStruct {
        field1: 42,
        field2: JsonNumber::from_text("3.14").unwrap(),
        field3: "Hi, Mom!".to_string(),
    };

    let test_struct_json = test_struct.to_json();
    let another_test_struct = TestStruct::from_json(&test_struct_json).unwrap();
    assert_eq!(test_struct, another_test_struct);

    let test_struct2 = TestStruct2 {
        field1: 42,
        field2: another_test_struct.clone(),
    };

    let test_struct2_json = test_struct2.to_json();
    let another_test_struct2 = TestStruct2::from_json(&test_struct2_json).unwrap();
    assert_eq!(test_struct2, another_test_struct2);
}
