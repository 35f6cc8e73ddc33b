use extendable_hashmap::{bits_to_value, get_first_n_bits};

#[test]
fn get_first_n_bits_works() {
    let bits = get_first_n_bits(u64::BITS as _, u64::MAX);

    bits.iter().for_each(|bit| assert_eq!(*bit, 1));

    let bits = get_first_n_bits(u64::BITS as _, u64::MIN);

    bits.iter().for_each(|bit| assert_eq!(*bit, 0));
}

#[test]
fn bits_to_value_works() {
    let bits = [1, 1, 0];
    assert_eq!(bits_to_value(&bits), 6);
}

#[test]
fn first_bits_are_the_most_significant_ones() {
    let num: u64 = 0b101 << 61;
    assert_eq!(get_first_n_bits(3, num), vec![1, 0, 1]);
    assert_eq!(get_first_n_bits(5, num), vec![1, 0, 1, 0, 0]);
    assert_eq!(get_first_n_bits(0, num), Vec::<usize>::new());
}

#[test]
fn first_bits_read_back_as_the_top_of_the_number() {
    let num: u64 = 0xdead_beef_0000_0001;
    for n in 0..=64usize {
        let expected = if n == 0 { 0 } else { num >> (64 - n) };
        if n <= usize::BITS as usize {
            assert_eq!(bits_to_value(&get_first_n_bits(n, num)) as u64, expected);
        }
    }
}

#[test]
fn bits_to_value_of_empty_and_single_bits() {
    assert_eq!(bits_to_value(&[]), 0);
    assert_eq!(bits_to_value(&[1]), 1);
    assert_eq!(bits_to_value(&[0, 0, 1, 0, 1]), 5);
}
