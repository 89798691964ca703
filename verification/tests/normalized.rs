use lexmetrics::normalized::{d2, normalized_distance, Ratio};

#[test]
fn kat_kot_is_two_sixths() {
    assert_eq!(d2("kat", "kot"), Ratio { num: 2, den: 6 });
}

#[test]
fn normalized_distance_to_self_is_zero() {
    for s in ["a", "kat", "pʰɑtér"] {
        let r = d2(s, s);
        assert_eq!(r.num, 0);
        assert_eq!(r.den, 2 * s.chars().count() as u128);
        assert!(r.is_zero());
    }
}

#[test]
fn two_empty_words_are_at_distance_zero() {
    let r = d2("", "");
    assert_eq!(r, Ratio { num: 0, den: 1 });
    assert!(r.is_zero());
}

#[test]
fn one_empty_word_gives_the_largest_value() {
    assert_eq!(d2("", "x"), Ratio { num: 2, den: 1 });
    assert_eq!(d2("abc", ""), Ratio { num: 6, den: 3 });
}

#[test]
fn normalized_formula_on_unequal_lengths() {
    assert_eq!(d2("kitten", "sitting"), Ratio { num: 6, den: 13 });
    assert_eq!(d2("flaw", "lawn"), Ratio { num: 4, den: 8 });
    assert_eq!(d2("kat", "dog"), Ratio { num: 6, den: 6 });
}

#[test]
fn normalized_distance_is_symmetric() {
    let words = ["", "a", "kat", "kot", "kitten", "sitting"];
    for a in words {
        for b in words {
            assert_eq!(d2(a, b), d2(b, a));
        }
    }
}

#[test]
fn normalized_distance_is_at_most_two_and_at_most_one_for_equal_lengths() {
    let words = ["", "a", "ab", "kat", "kot", "dog", "kitten", "sitting"];
    for a in words {
        for b in words {
            let r = d2(a, b);
            assert!(r.den > 0);
            assert!(r.num <= 2 * r.den);
            if a.chars().count() == b.chars().count() {
                assert!(r.num <= r.den);
            }
            assert_eq!(r.is_zero(), a == b);
        }
    }
}

#[test]
fn normalized_distance_on_slices() {
    let a: Vec<char> = "kat".chars().collect();
    let b: Vec<char> = "kot".chars().collect();
    assert_eq!(normalized_distance(&a, &b), Ratio { num: 2, den: 6 });
    assert_eq!(normalized_distance(&[], &[]), Ratio { num: 0, den: 1 });
}
