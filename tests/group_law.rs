use ec_arith::curve::{point_add, point_double};
use ec_arith::field::{mod_inverse, normalize, reduce};
use num_bigint::BigInt;

fn num(s: &str) -> BigInt {
    BigInt::parse_bytes(s.as_bytes(), 10).unwrap()
}

fn secp256k1_prime() -> BigInt {
    num("115792089237316195423570985008687907853269984665640564039457584007908834671663")
}

/// k·G on secp256k1, for k from 1 to 12.
fn multiple(k: usize) -> (BigInt, BigInt) {
    let table = [
        (
            "55066263022277343669578718895168534326250603453777594175500187360389116729240",
            "32670510020758816978083085130507043184471273380659243275938904335757337482424",
        ),
        (
            "89565891926547004231252920425935692360644145829622209833684329913297188986597",
            "12158399299693830322967808612713398636155367887041628176798871954788371653930",
        ),
        (
            "112711660439710606056748659173929673102114977341539408544630613555209775888121",
            "25583027980570883691656905877401976406448868254816295069919888960541586679410",
        ),
        (
            "103388573995635080359749164254216598308788835304023601477803095234286494993683",
            "37057141145242123013015316630864329550140216928701153669873286428255828810018",
        ),
        (
            "21505829891763648114329055987619236494102133314575206970830385799158076338148",
            "98003708678762621233683240503080860129026887322874138805529884920309963580118",
        ),
        (
            "115780575977492633039504758427830329241728645270042306223540962614150928364886",
            "78735063515800386211891312544505775871260717697865196436804966483607426560663",
        ),
        (
            "41948375291644419605210209193538855353224492619856392092318293986323063962044",
            "48361766907851246668144012348516735800090617714386977531302791340517493990618",
        ),
        (
            "21262057306151627953595685090280431278183829487175876377991189246716355947009",
            "41749993296225487051377864631615517161996906063147759678534462689479575333124",
        ),
        (
            "78173298682877769088723994436027545680738210601369041078747105985693655485630",
            "92362876758821804597230797234617159328445543067760556585160674174871431781431",
        ),
        (
            "72488970228380509287422715226575535698893157273063074627791787432852706183111",
            "62070622898698443831883535403436258712770888294397026493185421712108624767191",
        ),
        (
            "53957576663012291606402345341061437133522758407718089353314528343643821967563",
            "98386217607324929854432842186271083758341411730506808463586570492533445740059",
        ),
        (
            "94111259592240215275188773285036844871058226277992966241101117022315524122714",
            "76870767327212528811304566602812752860184934880685532702451763239157141742375",
        ),
    ];
    let (x, y) = table[k - 1];
    (num(x), num(y))
}

fn add(i: usize, j: usize) -> (BigInt, BigInt) {
    point_add(&secp256k1_prime(), &multiple(i), &multiple(j))
}

fn double(i: usize) -> (BigInt, BigInt) {
    point_double(&secp256k1_prime(), &BigInt::from(0), &multiple(i))
}

#[test]
fn add_g_and_2g_gives_3g() {
    assert_eq!(add(1, 2), multiple(3));
}

#[test]
fn add_g_and_3g_gives_4g() {
    assert_eq!(add(1, 3), multiple(4));
}

#[test]
fn add_g_and_4g_gives_5g() {
    assert_eq!(add(1, 4), multiple(5));
}

#[test]
fn add_2g_and_4g_gives_6g() {
    assert_eq!(add(2, 4), multiple(6));
}

#[test]
fn add_g_and_6g_gives_7g() {
    assert_eq!(add(1, 6), multiple(7));
}

#[test]
fn add_7g_and_g_gives_8g() {
    assert_eq!(add(7, 1), multiple(8));
}

#[test]
fn add_5g_and_4g_gives_9g() {
    assert_eq!(add(5, 4), multiple(9));
}

#[test]
fn add_7g_and_3g_gives_10g() {
    assert_eq!(add(7, 3), multiple(10));
}

#[test]
fn add_8g_and_3g_gives_11g() {
    assert_eq!(add(8, 3), multiple(11));
}

#[test]
fn add_9g_and_3g_gives_12g() {
    assert_eq!(add(9, 3), multiple(12));
}

#[test]
fn double_2g_gives_4g() {
    assert_eq!(double(2), multiple(4));
}

#[test]
fn double_3g_gives_6g() {
    assert_eq!(double(3), multiple(6));
}

#[test]
fn double_4g_gives_8g() {
    assert_eq!(double(4), multiple(8));
}

#[test]
fn double_5g_gives_10g() {
    assert_eq!(double(5), multiple(10));
}

#[test]
fn double_6g_gives_12g() {
    assert_eq!(double(6), multiple(12));
}

#[test]
fn double_g_gives_2g() {
    assert_eq!(double(1), multiple(2));
}

#[test]
fn addition_with_decreasing_x_needs_a_negative_difference_inverted() {
    // 3G.x > G.x, so the x-difference here is negative
    assert_eq!(add(3, 1), multiple(4));
    assert_eq!(add(4, 2), multiple(6));
    assert_eq!(add(12, 1), add(1, 12));
}

#[test]
fn addition_commutes_on_curve_points() {
    for (i, j) in [(1, 2), (2, 5), (3, 9), (6, 11), (10, 12)] {
        assert_eq!(add(i, j), add(j, i));
    }
}

#[test]
fn addition_and_doubling_agree_on_the_same_multiple() {
    assert_eq!(add(1, 3), double(2));
    assert_eq!(add(2, 4), double(3));
    assert_eq!(add(1, 7), double(4));
    assert_eq!(add(4, 6), double(5));
    assert_eq!(add(5, 7), double(6));
}

#[test]
fn sums_stay_in_the_field_range() {
    let p = secp256k1_prime();
    let zero = BigInt::from(0);
    for (i, j) in [(1, 2), (3, 1), (7, 3), (12, 11), (8, 5)] {
        let (x, y) = add(i, j);
        assert!(x >= zero && x < p);
        assert!(y >= zero && y < p);
    }
}

#[test]
fn small_curve_addition_and_doubling() {
    // y² = x³ + 2x + 3 over the field of order 97: (3, 6) and (80, 10) lie on it
    let p = BigInt::from(97);
    let a = (BigInt::from(3), BigInt::from(6));
    let b = (BigInt::from(80), BigInt::from(10));
    assert_eq!(point_add(&p, &a, &b), (BigInt::from(80), BigInt::from(87)));
    assert_eq!(point_double(&p, &BigInt::from(2), &a), (BigInt::from(80), BigInt::from(10)));
}

#[test]
fn inverse_of_small_values() {
    assert_eq!(mod_inverse(&BigInt::from(3), &BigInt::from(7)), BigInt::from(5));
    assert_eq!(mod_inverse(&BigInt::from(1), &BigInt::from(7)), BigInt::from(1));
    assert_eq!(mod_inverse(&BigInt::from(6), &BigInt::from(7)), BigInt::from(6));
    assert_eq!(mod_inverse(&BigInt::from(17), &BigInt::from(3120)), BigInt::from(2753));
}

#[test]
fn inverse_of_negative_or_unreduced_values() {
    assert_eq!(mod_inverse(&BigInt::from(-3), &BigInt::from(7)), BigInt::from(2));
    assert_eq!(mod_inverse(&BigInt::from(10), &BigInt::from(7)), BigInt::from(5));
    assert_eq!(mod_inverse(&BigInt::from(-1), &BigInt::from(11)), BigInt::from(10));
}

#[test]
fn inverse_round_trip_modulo_the_curve_prime() {
    let p = secp256k1_prime();
    let one = BigInt::from(1);
    for a in [
        BigInt::from(2),
        BigInt::from(12345),
        num("55066263022277343669578718895168534326250603453777594175500187360389116729240"),
        num("-987654321987654321987654321"),
        &p - BigInt::from(1),
    ] {
        let inv = mod_inverse(&a, &p);
        assert!(inv >= BigInt::from(0) && inv < p);
        let prod = (&a * &inv) % &p;
        let prod = if prod < BigInt::from(0) { prod + &p } else { prod };
        assert_eq!(prod, one);
    }
}

#[test]
fn normalize_moves_negative_values_up_once() {
    let p = BigInt::from(13);
    assert_eq!(normalize(BigInt::from(-5), &p), BigInt::from(8));
    assert_eq!(normalize(BigInt::from(-12), &p), BigInt::from(1));
    assert_eq!(normalize(BigInt::from(0), &p), BigInt::from(0));
    assert_eq!(normalize(BigInt::from(12), &p), BigInt::from(12));
}

#[test]
fn normalize_twice_is_normalize_once() {
    let p = BigInt::from(13);
    for v in [-12, -7, -1, 0, 4, 12] {
        let once = normalize(BigInt::from(v), &p);
        let twice = normalize(once.clone(), &p);
        assert_eq!(once, twice);
    }
}

#[test]
fn reduce_gives_the_canonical_residue() {
    let p = BigInt::from(13);
    assert_eq!(reduce(&BigInt::from(-27), &p), BigInt::from(12));
    assert_eq!(reduce(&BigInt::from(27), &p), BigInt::from(1));
    assert_eq!(reduce(&BigInt::from(-26), &p), BigInt::from(0));
    assert_eq!(reduce(&BigInt::from(5), &p), BigInt::from(5));
}
