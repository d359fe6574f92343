use knights_tour::digits::decimal_string;
use knights_tour::fizz::fizzbuzz_line;

#[test]
fn multiples_get_words() {
    assert_eq!(fizzbuzz_line(15), "FizzBuzz");
    assert_eq!(fizzbuzz_line(30), "FizzBuzz");
    assert_eq!(fizzbuzz_line(10), "Buzz");
    assert_eq!(fizzbuzz_line(5), "Buzz");
    assert_eq!(fizzbuzz_line(9), "Fizz");
    assert_eq!(fizzbuzz_line(3), "Fizz");
}

#[test]
fn other_numbers_get_decimals() {
    assert_eq!(fizzbuzz_line(1), "1");
    assert_eq!(fizzbuzz_line(7), "7");
    assert_eq!(fizzbuzz_line(98), "98");
}

#[test]
fn decimal_rendering() {
    assert_eq!(decimal_string(0), "0");
    assert_eq!(decimal_string(9), "9");
    assert_eq!(decimal_string(10), "10");
    assert_eq!(decimal_string(907), "907");
    assert_eq!(decimal_string(4294967295), "4294967295");
}
