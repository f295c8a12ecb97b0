use algolib::chminmax::ChMinMax;
use algolib::geometry::{arg_cmp, polygon_area_mul2, Vector};
use algolib::gf::combinatorics::Combinatorics;
use algolib::gf::GF;
use algolib::intalgo::{gcd, lcm, pow_mod};
use algolib::matrix::Matrix;
use algolib::monoids::{wrap_add, wrap_mul};
use algolib::parenthesis::{num_is_parenthesis, vec_is_parenthesis};
use algolib::slopetrick::SlopeTrick;

#[test]
fn gcd_values() {
    assert_eq!(gcd(12, 18), 6);
    assert_eq!(gcd(0, 5), 5);
    assert_eq!(gcd(5, 0), 5);
    assert_eq!(gcd(0, 0), 0);
    assert_eq!(gcd(1, 1), 1);
    assert_eq!(gcd(17, 13), 1);
    assert_eq!(gcd(1 << 40, 1 << 20), 1 << 20);
    assert_eq!(gcd(2 * 3 * 5 * 7, 3 * 5 * 11), 15);
}

#[test]
fn lcm_values() {
    assert_eq!(lcm(4, 6), 12);
    assert_eq!(lcm(7, 3), 21);
    assert_eq!(lcm(10, 10), 10);
}

#[test]
fn pow_mod_values() {
    assert_eq!(pow_mod(2, 10, 1000), 24);
    assert_eq!(pow_mod(3, 0, 7), 1);
    assert_eq!(pow_mod(5, 3, 1), 0);
    assert_eq!(pow_mod(10, 9, 1_000_000_007), 1_000_000_000);
    assert_eq!(pow_mod(10, 10, 1_000_000_007), 999_999_937);
}

#[test]
fn parenthesis_bytes() {
    assert!(vec_is_parenthesis(b"(()())", b'(', b')'));
    assert!(!vec_is_parenthesis(b"())", b'(', b')'));
    assert!(!vec_is_parenthesis(b"((", b'(', b')'));
    assert!(!vec_is_parenthesis(b")(", b'(', b')'));
    assert!(vec_is_parenthesis(b"", b'(', b')'));
    assert!(!vec_is_parenthesis(b"(a)", b'(', b')'));
    assert!(vec_is_parenthesis(b"[[]]", b'[', b']'));
}

#[test]
fn parenthesis_bits() {
    // bits are read from position n - 1 down to 0; 0 opens, 1 closes
    assert!(num_is_parenthesis(2, 0b01));
    assert!(num_is_parenthesis(4, 0b0101));
    assert!(num_is_parenthesis(4, 0b0011));
    assert!(!num_is_parenthesis(2, 0b10));
    assert!(!num_is_parenthesis(3, 0b001));
    assert!(num_is_parenthesis(0, 0));
}

#[test]
fn chminmax_updates() {
    let mut x: i64 = 10;
    assert!(x.chmin(3));
    assert_eq!(x, 3);
    assert!(!x.chmin(5));
    assert_eq!(x, 3);
    assert!(x.chmax(8));
    assert_eq!(x, 8);
    assert!(!x.chmax(-1));
    assert_eq!(x, 8);
    let mut y: usize = 0;
    assert!(!y.chmin(0));
    assert!(y.chmax(2));
    assert_eq!(y, 2);
}

#[test]
fn vector_arithmetic() {
    let a = Vector::new(2, 3);
    let b = Vector::new(-1, 4);
    assert_eq!(a.x(), 2);
    assert_eq!(a.y(), 3);
    let s = a.add(&b);
    assert_eq!((s.x(), s.y()), (1, 7));
    let d = a.sub(&b);
    assert_eq!((d.x(), d.y()), (3, -1));
    let m = a.scalar(&3);
    assert_eq!((m.x(), m.y()), (6, 9));
    assert_eq!(a.dot(&b), 2 * -1 + 3 * 4);
    assert_eq!(a.cross(&b), 2 * 4 - 3 * -1);
    assert_eq!(a.norm_pow2(), 13);
}

#[test]
fn polygon_area() {
    let square = vec![
        Vector::new(0, 0),
        Vector::new(2, 0),
        Vector::new(2, 2),
        Vector::new(0, 2),
    ];
    assert_eq!(polygon_area_mul2(&square), 8);
    let degenerate = vec![Vector::new(1, 1), Vector::new(2, 2)];
    assert_eq!(polygon_area_mul2(&degenerate), 0);
}

#[test]
fn arg_cmp_orders_half_planes() {
    let up = Vector::new(0, 1);
    let down = Vector::new(0, -1);
    // the upper half plane comes first
    assert_eq!(arg_cmp(&down, &up), 1);
    assert_eq!(arg_cmp(&up, &down), -1);
    assert_eq!(arg_cmp(&up, &up), 0);
    let right = Vector::new(1, 0);
    // within the upper half plane the cross product decides
    assert_eq!(arg_cmp(&right, &up), -1);
}

#[test]
fn gf_arithmetic() {
    let a = GF::<7>::new(3);
    let b = GF::<7>::new(6);
    assert_eq!(a.add(&b).value(), 2);
    assert_eq!(a.sub(&b).value(), 4);
    assert_eq!(a.mul(&b).value(), 4);
    assert_eq!(a.pow(2).value(), 2);
    assert_eq!(a.pow(0).value(), 1);
    // 3 * 5 == 15 == 1 mod 7
    assert_eq!(a.inv().value(), 5);
}

#[test]
fn combinatorics_tables() {
    let c = Combinatorics::<1_000_000_007>::build(10);
    assert_eq!(c.factorial(0).value(), 1);
    assert_eq!(c.factorial(4).value(), 24);
    assert_eq!(c.binom(5, 2).value(), 10);
    assert_eq!(c.binom(9, 0).value(), 1);
    assert_eq!(c.binom(9, 9).value(), 1);
    assert_eq!(c.binom(6, 3).value(), 20);
}

#[test]
fn matrix_arithmetic() {
    let a = Matrix::new(2, 2, &vec![vec![1, 2], vec![3, 4]]);
    let b = Matrix::new(2, 2, &vec![vec![5, 6], vec![7, 8]]);
    let s = a.add(&b);
    assert_eq!(s.at(0, 0), 6);
    assert_eq!(s.at(1, 1), 12);
    let d = b.sub(&a);
    assert_eq!(d.at(0, 1), 4);
    let p = a.mul(&b);
    assert_eq!(p.at(0, 0), 19);
    assert_eq!(p.at(0, 1), 22);
    assert_eq!(p.at(1, 0), 43);
    assert_eq!(p.at(1, 1), 50);
    let e = Matrix::e(3);
    for i in 0..3 {
        for j in 0..3 {
            assert_eq!(e.at(i, j), if i == j { 1 } else { 0 });
        }
    }
    let ae = a.mul(&Matrix::e(2));
    assert_eq!(ae.at(0, 0), 1);
    assert_eq!(ae.at(1, 0), 3);
}

#[test]
fn matrix_wrapping_behavior() {
    let a = Matrix::new(1, 1, &vec![vec![i64::MAX]]);
    let b = Matrix::new(1, 1, &vec![vec![1]]);
    assert_eq!(a.add(&b).at(0, 0), i64::MIN);
}

#[test]
fn wrapping_helpers() {
    assert_eq!(wrap_add(u64::MAX, 1), 0);
    assert_eq!(wrap_add(u64::MAX, 5), 4);
    assert_eq!(wrap_add(2, 3), 5);
    assert_eq!(wrap_mul(u64::MAX, 2), u64::MAX - 1);
    assert_eq!(wrap_mul(3, 4), 12);
}

#[test]
fn slope_trick_minimum_tracking() {
    let mut st = SlopeTrick::new();
    assert_eq!(st.min(), 0);
    st.add_abs(3);
    assert_eq!(st.min(), 0);
    st.add_abs(1);
    // |x - 3| + |x - 1| is minimized between the kinks, at value 2
    assert_eq!(st.min(), 2);
    st.add_const(5);
    assert_eq!(st.min(), 7);
    st.add_plus(0);
    // the flat segment was [1, 3]; the new rising hinge shifts the
    // minimum to x = 1, adding 1
    assert_eq!(st.min(), 8);
    st.add_minus(10);
    // max(10 - x, 0) at x = 1 would add 9, but the minimizer moves
    assert!(st.min() > 8);
}

#[test]
fn slope_trick_one_sided() {
    let mut st = SlopeTrick::new();
    st.add_plus(5);
    assert_eq!(st.min(), 0);
    st.add_minus(2);
    assert_eq!(st.min(), 0);
    st.add_minus(9);
    // max(9 - x, 0) forces the minimum up: flat was [..5]; 9 - 5 = 4
    assert_eq!(st.min(), 4);
}
