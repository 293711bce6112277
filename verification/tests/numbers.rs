use venom_db::engine::rows::compare_values;
use venom_db::sql::ast::Value;
use venom_db::sql::number::{Rank, Real};

fn float(x: f64) -> Real {
    Real::from_bits(x.to_bits())
}

fn rank(a: f64, b: f64) -> Option<Rank> {
    a.partial_cmp(&b).map(|o| match o {
        std::cmp::Ordering::Less => Rank::Less,
        std::cmp::Ordering::Equal => Rank::Equal,
        std::cmp::Ordering::Greater => Rank::Greater,
    })
}

const SAMPLES: [f64; 14] = [
    0.0,
    -0.0,
    1.0,
    -1.0,
    0.5,
    -2.75,
    1e300,
    -1e300,
    5e-324,
    9007199254740993.0,
    f64::INFINITY,
    f64::NEG_INFINITY,
    f64::NAN,
    f64::MAX,
];

#[test]
fn reals_compare_as_numbers() {
    for a in SAMPLES {
        for b in SAMPLES {
            assert_eq!(float(a).rank(&float(b)), rank(a, b), "{} {}", a, b);
            assert_eq!(float(a) == float(b), a == b, "{} {}", a, b);
        }
    }
}

#[test]
fn integers_compare_with_reals_by_their_exact_values() {
    assert_eq!(Real::rank_int(1, &float(1.0)), Some(Rank::Equal));
    assert_eq!(Real::rank_int(1, &float(1.5)), Some(Rank::Less));
    assert_eq!(Real::rank_int(-2, &float(-2.5)), Some(Rank::Greater));
    assert_eq!(Real::rank_int(0, &float(-0.0)), Some(Rank::Equal));
    assert_eq!(Real::rank_int(0, &float(5e-324)), Some(Rank::Less));
    assert_eq!(Real::rank_int(i64::MAX, &float(9223372036854775808.0)), Some(Rank::Less));
    assert_eq!(Real::rank_int(i64::MIN, &float(-9223372036854775808.0)), Some(Rank::Equal));
    assert_eq!(Real::rank_int(i64::MIN, &float(f64::NEG_INFINITY)), Some(Rank::Greater));
    assert_eq!(Real::rank_int(i64::MAX, &float(f64::INFINITY)), Some(Rank::Less));
    assert_eq!(Real::rank_int(5, &float(f64::NAN)), None);
}

#[test]
fn nulls_sort_last() {
    assert_eq!(compare_values(&Value::Null, &Value::Int(1)), Rank::Greater);
    assert_eq!(compare_values(&Value::Int(1), &Value::Null), Rank::Less);
    assert_eq!(compare_values(&Value::Null, &Value::Null), Rank::Equal);
    assert_eq!(compare_values(&Value::Int(1), &Value::Text("1".into())), Rank::Less);
}

#[test]
fn texts_compare_by_their_bytes() {
    let text = |s: &str| Value::Text(s.into());
    assert_eq!(text("a").rank(&text("b")), Some(Rank::Less));
    assert_eq!(text("Z").rank(&text("a")), Some(Rank::Less));
    assert_eq!(text("é").rank(&text("z")), Some(Rank::Greater));
    assert_eq!(text("ab").rank(&text("a")), Some(Rank::Greater));
    assert_eq!(text("").rank(&text("")), Some(Rank::Equal));
    assert_eq!(text("a").rank(&Value::Int(1)), None);
}
