use integer::Int;
use std::cmp::Ordering;

#[test]
fn decimal_round_trip() {
    let cases = vec![
        "0",
        "1",
        "-1",
        "175",
        "-175",
        "18446744073709551616",
        "263130836933693530167218012160000000",
        "-263130836933693530167218012160000000",
    ];
    for text in cases {
        let v = Int::from_str(text);
        assert_eq!(v.to_str(), text);
        assert_eq!(Int::from_str(&v.to_str()), v);
    }
}

#[test]
fn parse_factorial_limbs() {
    let v = Int::from_str("263130836933693530167218012160000000");
    let w = Int { size: 2, sign: false, value: vec![14264351252571976, 12400865694432886784] };
    assert_eq!(v, w);
    assert_eq!(w.to_str(), "263130836933693530167218012160000000");
}

#[test]
fn parse_small_values() {
    assert_eq!(Int::from_str("175"), Int { size: 1, sign: false, value: vec![175] });
    assert_eq!(Int::from_str("-175"), Int { size: 1, sign: true, value: vec![175] });
    assert_eq!(Int::from_str(""), Int::zero());
    assert_eq!(Int::from_str("007"), Int::from_str("7"));
    assert_eq!(Int::zero().to_str(), "0");
}

#[test]
fn additive_inverse() {
    let cases = vec!["0", "1", "-42", "263130836933693530167218012160000000"];
    for text in cases {
        let v = Int::from_str(text);
        assert_eq!(v.add(&v.negate()), Int::zero());
    }
}

#[test]
fn subtractive_identity() {
    let v = Int::from_str("-98765432109876543210987654321");
    let k = Int::from_str("123456789123456789");
    assert_eq!(v.sub(&v), Int::zero());
    assert_eq!(v.sub(&k).add(&k), v);
    assert_eq!(k.sub(&v).add(&v), k);
}

#[test]
fn multiplicative_identity() {
    let cases = vec!["0", "1", "-7", "340282366920938463463374607431768211456"];
    for text in cases {
        let v = Int::from_str(text);
        assert_eq!(v.mul(&Int::one()), v);
    }
}

#[test]
fn multiplication_signs() {
    let a = Int::from_str("-12");
    let b = Int::from_str("3");
    assert_eq!(a.mul(&b), Int::from_str("-36"));
    assert_eq!(b.mul(&a), Int::from_str("-36"));
    assert_eq!(a.mul(&a), Int::from_str("144"));
    assert_eq!(a.mul(&Int::zero()), Int::zero());
}

#[test]
fn division_and_remainder() {
    let pairs = vec![
        ("1000", "7"),
        ("7", "1000"),
        ("-1000", "7"),
        ("1000", "-7"),
        ("-1000", "-7"),
        ("263130836933693530167218012160000000", "18446744073709551616"),
        ("263130836933693530167218012160000001", "263130836933693530167218012160000000"),
    ];
    for (na, nb) in pairs {
        let a = Int::from_str(na);
        let b = Int::from_str(nb);
        let q = a.div(&b);
        let r = a.rem(&b);
        assert_eq!(q.mul(&b).add(&r), a);
    }
    assert_eq!(Int::from_str("1000").div(&Int::from_str("7")), Int::from_str("142"));
    assert_eq!(Int::from_str("1000").rem(&Int::from_str("7")), Int::from_str("6"));
    assert_eq!(Int::from_str("-7").div(&Int::from_str("3")), Int::from_str("-2"));
    assert_eq!(Int::from_str("-7").rem(&Int::from_str("3")), Int::from_str("-1"));
}

#[test]
fn limb_division() {
    let v = Int::from_str("1000");
    assert_eq!(v.div_by_limb(7), Int::from_str("142"));
    assert_eq!(v.rem_by_limb(7), 6);
    let n = Int::from_str("-1000");
    assert_eq!(n.div_by_limb(7), Int::from_str("-142"));
    assert_eq!(n.rem_by_limb(7), 6);
    let big = Int::from_str("263130836933693530167218012160000000");
    assert_eq!(big.rem_by_limb(10), 0);
    assert_eq!(big.div_by_limb(10), Int::from_str("26313083693369353016721801216000000"));
}

#[test]
fn ordering_consistency() {
    let cases = vec![
        ("-5", "3"),
        ("3", "-5"),
        ("42", "42"),
        ("18446744073709551616", "18446744073709551615"),
    ];
    for (na, nb) in cases {
        let a = Int::from_str(na);
        let b = Int::from_str(nb);
        let o = a.compare(&b);
        let d = a.sub(&b);
        match o {
            Ordering::Less => assert!(d.sign && d.size > 0),
            Ordering::Equal => assert_eq!(d, Int::zero()),
            Ordering::Greater => assert!(!d.sign && d.size > 0),
        }
    }
    assert_eq!(Int::from_str("-5").compare(&Int::from_str("3")), Ordering::Less);
    assert_eq!(Int::from_str("42").compare(&Int::from_str("42")), Ordering::Equal);
    assert_eq!(Int::from_str("3").compare(&Int::from_str("-5")), Ordering::Greater);
    assert_eq!(Int::from_str("-3").compare(&Int::from_str("-5")), Ordering::Greater);
}

#[test]
fn exponentiation() {
    let two = Int::from_str("2");
    let ten = Int::from_str("10");
    assert_eq!(two.pow(&ten), Int::from_str("1024"));
    assert_eq!(two.pow(&Int::zero()), Int::one());
    assert_eq!(Int::zero().pow(&Int::zero()), Int::one());
    assert_eq!(ten.pow(&Int::from_str("20")), Int::from_str("100000000000000000000"));
    assert_eq!(Int::from_str("-3").pow(&Int::from_str("3")), Int::from_str("-27"));
}

#[test]
fn modular_exponentiation() {
    let one = Int::one();
    let cases = vec![("2", "10"), ("7", "0"), ("123456789", "987")];
    for (nb, ne) in cases {
        let b = Int::from_str(nb);
        let e = Int::from_str(ne);
        assert_eq!(b.mod_pow(&e, &one), Int::zero());
    }
    let seven = Int::from_str("7");
    assert_eq!(Int::from_str("3").mod_pow(&Int::from_str("5"), &seven), Int::from_str("5"));
    assert_eq!(
        Int::from_str("2").mod_pow(&Int::from_str("10"), &Int::from_str("1000")),
        Int::from_str("24")
    );
}

#[test]
fn integer_square_root() {
    assert_eq!(Int::from_str("100").isqrt(), Int::from_str("10"));
    assert_eq!(Int::zero().isqrt(), Int::zero());
    assert_eq!(Int::one().isqrt(), Int::one());
    assert_eq!(Int::from_str("2").isqrt(), Int::one());
    assert_eq!(Int::from_str("99").isqrt(), Int::from_str("9"));
    assert_eq!(
        Int::from_str("263130836933693530167218012160000000").isqrt(),
        Int::from_str("512962802680363491")
    );
}

#[test]
fn shifting_and_scaling() {
    assert_eq!(Int::from_str("5").shift_left(3), Int::from_str("40"));
    assert_eq!(Int::from_str("5").shift_left(0), Int::from_str("5"));
    assert_eq!(
        Int::from_str("1").shift_left(63),
        Int::from_str("9223372036854775808")
    );
    assert_eq!(Int::from_str("-5").shift_left(1), Int::from_str("-10"));
    assert_eq!(
        Int::from_str("18446744073709551615").mul_by_limb(18446744073709551615),
        Int::from_str("340282366920938463426481119284349108225")
    );
}

#[test]
fn constants() {
    assert_eq!(Int::base(), Int::from_str("18446744073709551616"));
    assert_eq!(Int::one().to_str(), "1");
    assert_eq!(Int::zero().negate(), Int::zero());
    assert_eq!(Int::from_str("-5").abs(), Int::from_str("5"));
    assert_eq!(Int::from_str("5").abs(), Int::from_str("5"));
}
