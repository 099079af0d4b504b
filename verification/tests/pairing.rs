use circuit_netlist::pairing::{from_szudzik, integer_sqrt, to_szudzik};

#[test]
fn test_szudzik() {
    let x = 8174;
    let y = 1782;
    let z = to_szudzik(x, y);
    assert_eq!((x, y), from_szudzik(z));
}

#[test]
fn szudzik_values() {
    assert_eq!(to_szudzik(0, 0), 0);
    assert_eq!(to_szudzik(0, 1), 1);
    assert_eq!(to_szudzik(1, 0), 2);
    assert_eq!(to_szudzik(1, 1), 3);
    assert_eq!(to_szudzik(0, 2), 4);
    assert_eq!(to_szudzik(2, 2), 8);
    assert_eq!(to_szudzik(8174, 1782), 66824232);
    assert_eq!(to_szudzik(1782, 8174), 66816058);
    assert_eq!(to_szudzik(46340, 0), 2147441940);
    assert_eq!(from_szudzik(0), (0, 0));
    assert_eq!(from_szudzik(3), (1, 1));
    assert_eq!(from_szudzik(8), (2, 2));
    assert_eq!(from_szudzik(2147483647), (46340, 41707));
    assert_eq!(from_szudzik(24999999), (4999, 4999));
    assert_eq!(from_szudzik(-5), (-5, 0));
}

#[test]
fn szudzik_round_trips() {
    for z in 0..2000 {
        let (x, y) = from_szudzik(z);
        assert!(x >= 0 && y >= 0);
        assert_eq!(to_szudzik(x, y), z);
    }
    for x in 0..40 {
        for y in 0..40 {
            assert_eq!(from_szudzik(to_szudzik(x, y)), (x, y));
        }
    }
}

#[test]
fn integer_square_roots() {
    assert_eq!(integer_sqrt(-1), 0);
    assert_eq!(integer_sqrt(0), 0);
    assert_eq!(integer_sqrt(1), 1);
    assert_eq!(integer_sqrt(3), 1);
    assert_eq!(integer_sqrt(4), 2);
    assert_eq!(integer_sqrt(24999999), 4999);
    assert_eq!(integer_sqrt(25000000), 5000);
    assert_eq!(integer_sqrt(2147395599), 46339);
    assert_eq!(integer_sqrt(2147395600), 46340);
    assert_eq!(integer_sqrt(2147483647), 46340);
}
