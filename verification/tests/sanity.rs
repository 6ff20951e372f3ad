#[test]
#[should_panic(expected = "Deliberate failure to verify assertion framework behavior.")]
fn test_expected_fail() {
    panic!("Deliberate failure to verify assertion framework behavior.");
}
