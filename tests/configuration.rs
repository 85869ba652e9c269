use deploy_config::configuration::{parse_configuration, parse_entries, ConfigError};

#[test]
fn ques2_evaluate_deployments_cfg() {
    let config_str = "0001f7c22e7904|000276a3a4d214|000305d29f4a4b";
    let result = parse_configuration(config_str).unwrap();
    assert_eq!(
        result,
        [
            "f7c22e7904".to_owned(),
            "76a3a4d214".to_owned(),
            "05d29f4a4b".to_owned()
        ]
        .to_vec()
    );

    let config_str = "0002f7c22e7904|000176a3a4d214|000305d29f4a4b";
    match parse_configuration(config_str) {
        Ok(_result) => {}
        Err(error) => {
            assert_eq!(error, "Invalid order".to_owned());
        }
    };

    let config_str = "000af7c22e7904|000276a3a4d214|000305d29f4a4b";
    match parse_configuration(config_str) {
        Ok(_result) => {}
        Err(error) => {
            assert_eq!(error, "Invalid index: 000a".to_owned());
        }
    };

    let config_str = "0001f7c22e790#|000276a3a4d214|000305d29f4a4b";
    match parse_configuration(config_str) {
        Ok(_result) => {}
        Err(error) => {
            assert_eq!(error, "Config should be alphanumeric".to_owned());
        }
    };

    let config_str = "0001f7c22e79002|000276a3a4d214|000305d29f4a4b";
    match parse_configuration(config_str) {
        Ok(_result) => {}
        Err(error) => {
            assert_eq!(error, "Invalid configuration length".to_owned());
        }
    };
}

#[test]
fn valid_blob_gives_values_in_order() {
    let r = parse_configuration("0001f7c22e7904|000276a3a4d214|000305d29f4a4b");
    assert_eq!(
        r,
        Ok(vec!["f7c22e7904".to_string(), "76a3a4d214".to_string(), "05d29f4a4b".to_string()])
    );
}

#[test]
fn swapped_indices_are_out_of_order() {
    let r = parse_entries("0002f7c22e7904|000176a3a4d214|000305d29f4a4b");
    assert_eq!(r, Err(ConfigError::InvalidOrder));
}

#[test]
fn letter_in_index_is_invalid_index() {
    let r = parse_entries("000af7c22e7904|000276a3a4d214|000305d29f4a4b");
    assert_eq!(r, Err(ConfigError::InvalidIndex("000a".to_string())));
    assert_eq!(r.unwrap_err().message(), "Invalid index: 000a");
}

#[test]
fn punctuation_in_value_is_not_alphanumeric() {
    let r = parse_entries("0001f7c22e790#|000276a3a4d214|000305d29f4a4b");
    assert_eq!(r, Err(ConfigError::NotAlphanumeric));
}

#[test]
fn eleven_character_value_is_invalid_length() {
    let r = parse_entries("0001f7c22e79002|000276a3a4d214|000305d29f4a4b");
    assert_eq!(r, Err(ConfigError::InvalidLength));
}

#[test]
fn single_pair_is_too_few() {
    assert_eq!(parse_entries("0001f7c22e7904"), Err(ConfigError::TooFewPairs));
    assert_eq!(parse_entries(""), Err(ConfigError::TooFewPairs));
    assert_eq!(
        parse_configuration("0001f7c22e7904"),
        Err("Invalid configuration string: too few pairs".to_string())
    );
}

#[test]
fn short_segment_is_invalid_length() {
    assert_eq!(parse_entries("00|0002abcdefghij"), Err(ConfigError::InvalidLength));
    assert_eq!(parse_entries("0001abcdefghij|"), Err(ConfigError::InvalidLength));
}

#[test]
fn multibyte_character_in_index_is_invalid_index() {
    let r = parse_entries("00é1abcdefghij|0002abcdefghij");
    assert_eq!(r, Err(ConfigError::InvalidIndex("00é1".to_string())));
}

#[test]
fn plus_sign_index_is_read_as_number() {
    let r = parse_entries("+001abcdefghij|0002abcdefghij");
    assert_eq!(r, Ok(vec!["abcdefghij".to_string(), "abcdefghij".to_string()]));
    assert_eq!(parse_entries("-001abcdefghij|0002abcdefghij"), Err(ConfigError::InvalidIndex("-001".to_string())));
}

#[test]
fn gap_in_indices_is_out_of_order() {
    let r = parse_entries("0001abcdefghij|0003abcdefghij");
    assert_eq!(r, Err(ConfigError::InvalidOrder));
}

#[test]
fn first_fault_wins() {
    let r = parse_entries("0001abcdefghij|000xabcdefgh#j|0002abcdefghijk");
    assert_eq!(r, Err(ConfigError::InvalidIndex("000x".to_string())));
}

#[test]
fn round_trip_of_fifty_values() {
    let mut values: Vec<String> = Vec::new();
    let mut blob = String::new();
    for i in 1..=50u32 {
        let v = format!("v{:09}", i * 7919);
        if i > 1 {
            blob.push('|');
        }
        blob.push_str(&format!("{:04}{}", i, v));
        values.push(v);
    }
    assert_eq!(parse_configuration(&blob), Ok(values));
}

#[test]
fn round_trip_of_two_values() {
    let r = parse_configuration("0001ABCdef0123|0002zzzzzzzzzz");
    assert_eq!(r, Ok(vec!["ABCdef0123".to_string(), "zzzzzzzzzz".to_string()]));
}

#[test]
fn error_messages_match_their_kinds() {
    assert_eq!(ConfigError::InvalidOrder.message(), "Invalid order");
    assert_eq!(ConfigError::InvalidLength.message(), "Invalid configuration length");
    assert_eq!(ConfigError::NotAlphanumeric.message(), "Config should be alphanumeric");
}
