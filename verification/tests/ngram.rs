use xwords::ngram::bigrams;

#[test]
fn ngram_it_works() {
    let input = vec![String::from("ABC"), String::from("ABRACADABRA")];
    let actual = bigrams(&input);
    assert_eq!(3, actual.get('A', 'B'));
    assert_eq!(2, actual.get('R', 'A'));
}

#[test]
fn absent_pairs_count_zero() {
    let input = vec![String::from("ABC")];
    let actual = bigrams(&input);
    assert_eq!(0, actual.get('C', 'A'));
    assert_eq!(1, actual.get('A', 'B'));
    assert_eq!(1, actual.get('B', 'C'));
}
