use yahtzee_solver::combinatorics::binomial_coefficient;

#[test]
fn binomial_coefficients() {
    assert_eq!(binomial_coefficient(5, 0), 1);
    assert_eq!(binomial_coefficient(5, 2), 10);
    assert_eq!(binomial_coefficient(5, 3), 10);
    assert_eq!(binomial_coefficient(5, 5), 1);
    assert_eq!(binomial_coefficient(3, 4), 0);
    assert_eq!(binomial_coefficient(10, 5), 252);
    assert_eq!(binomial_coefficient(20, 10), 184756);
}
