use lexmetrics::metrics::{distances_norms, lexical_metrics, norms, similarities};
use lexmetrics::normalized::Ratio;
use lexmetrics::pairwise::distances;
use lexmetrics::triangular::Triangular;

fn group(items: &[(&str, &str)]) -> Vec<(String, String)> {
    items.iter().map(|(w, t)| (w.to_string(), t.to_string())).collect()
}

fn decay(r: Ratio) -> f64 {
    (-(r.num as f64 / r.den as f64)).exp()
}

fn plus(a: f64, b: f64) -> f64 {
    a + b
}

fn scale(sim: f64, norm: f64, n: usize) -> f64 {
    if norm == 0.0 {
        0.0
    } else {
        (sim / norm * n as f64) / (n * n) as f64
    }
}

fn close(a: f64, b: f64) -> bool {
    (a - b).abs() <= 1e-12 * a.abs().max(b.abs()).max(1.0)
}

#[test]
fn distances_of_three_words() {
    let words = group(&[("cat", "kat"), ("cot", "kot"), ("dog", "dog")]);
    let table = distances(&words);
    assert_eq!(table.rows(), 3);
    assert_eq!(
        table.as_cells(),
        &vec![
            Ratio { num: 0, den: 6 },
            Ratio { num: 2, den: 6 },
            Ratio { num: 0, den: 6 },
            Ratio { num: 6, den: 6 },
            Ratio { num: 4, den: 6 },
            Ratio { num: 0, den: 6 },
        ]
    );
}

#[test]
fn distances_use_the_transcription_not_the_written_form() {
    let words = group(&[("aaaa", "x"), ("b", "xyz")]);
    let table = distances(&words);
    assert_eq!(table.get(1, 0), Some(&Ratio { num: 4, den: 4 }));
    assert_eq!(table.get(0, 1), Some(&Ratio { num: 4, den: 4 }));
}

#[test]
fn distances_keep_the_order_of_the_group() {
    let words = group(&[("1", "a"), ("2", "abc"), ("3", "ab"), ("4", "")]);
    let table = distances(&words);
    for i in 0..4 {
        for j in 0..4 {
            let expected = lexmetrics::normalized::d2(&words[i].1, &words[j].1);
            assert_eq!(table.get(i, j), Some(&expected), "{i} {j}");
        }
    }
}

#[test]
fn repeated_words_are_kept_apart() {
    let words = group(&[("a", "kat"), ("b", "kat"), ("c", "kat")]);
    let table = distances(&words);
    assert_eq!(table.rows(), 3);
    assert!(table.as_cells().iter().all(|r| *r == Ratio { num: 0, den: 6 }));
}

#[test]
fn empty_group_gives_empty_results() {
    let words = group(&[]);
    let table = distances(&words);
    assert_eq!(table.rows(), 0);
    assert!(table.as_cells().is_empty());
    let sims = similarities(&table, decay);
    assert_eq!(sims.rows(), 0);
    assert!(sims.as_cells().is_empty());
    let totals = norms(&sims, 0.0, plus);
    assert!(totals.is_empty());
    let metric = lexical_metrics(&sims, &totals, scale).unwrap();
    assert!(metric.is_empty());
}

#[test]
fn single_item_group() {
    let words = group(&[("cat", "kat")]);
    let table = distances(&words);
    let sims = similarities(&table, decay);
    assert_eq!(sims.as_cells(), &vec![1.0]);
    let totals = norms(&sims, 0.0, plus);
    assert_eq!(totals, vec![1.0]);
    let metric = lexical_metrics(&sims, &totals, scale).unwrap();
    assert_eq!(metric, vec![vec![1.0]]);
}

#[test]
fn single_empty_transcription() {
    let words = group(&[("nothing", "")]);
    let table = distances(&words);
    assert_eq!(table.as_cells(), &vec![Ratio { num: 0, den: 1 }]);
    let sims = similarities(&table, decay);
    assert_eq!(sims.as_cells(), &vec![1.0]);
}

#[test]
fn end_to_end_cat_cot_dog() {
    let words = group(&[("cat", "kat"), ("cot", "kot"), ("dog", "dog")]);
    let table = distances(&words);
    let sims = similarities(&table, decay);

    let s10 = (-(2.0f64 / 6.0)).exp();
    let s20 = (-1.0f64).exp();
    let s21 = (-(4.0f64 / 6.0)).exp();
    assert!((s10 - 0.7165).abs() < 1e-4);
    assert_eq!(sims.as_cells(), &vec![1.0, s10, 1.0, s20, s21, 1.0]);
    for i in 0..3 {
        assert_eq!(sims.get(i, i), Some(&1.0));
    }

    let totals = norms(&sims, 0.0, plus);
    assert_eq!(totals, vec![0.0 + 1.0 + s10 + s20, 0.0 + s10 + 1.0 + s21, 0.0 + s20 + s21 + 1.0]);

    let metric = lexical_metrics(&sims, &totals, scale).unwrap();
    assert_eq!(metric.len(), 3);
    for i in 0..3 {
        assert_eq!(metric[i].len(), 3);
        for j in 0..3 {
            assert!(metric[i][j] > 0.0);
            let sim = *sims.get(i, j).unwrap();
            assert!(close(metric[i][j], sim / (totals[j] * 3.0)));
        }
        assert!(close(metric[i][i], 1.0 / (totals[i] * 3.0)));
    }
    assert_eq!(metric[0][1], (s10 / totals[1] * 3.0) / 9.0);
    assert_eq!(metric[1][0], (s10 / totals[0] * 3.0) / 9.0);
}

#[test]
fn similarity_lies_in_the_unit_interval() {
    let words = group(&[("a", ""), ("b", "x"), ("c", "kat"), ("d", "kot"), ("e", "sitting")]);
    let sims = similarities(&distances(&words), decay);
    for i in 0..5 {
        for j in 0..5 {
            let s = *sims.get(i, j).unwrap();
            assert!(s > 0.0 && s <= 1.0);
            assert_eq!(s == 1.0, words[i].1 == words[j].1);
        }
    }
}

#[test]
fn totals_count_every_pair_for_both_members() {
    let words = group(&[("a", "kat"), ("b", "kot"), ("c", "dog"), ("d", "kitten"), ("e", "")]);
    let sims = similarities(&distances(&words), decay);
    let totals = norms(&sims, 0.0, plus);
    let n = words.len();
    let all: f64 = sims.as_cells().iter().sum();
    let diagonal: f64 = (0..n).map(|i| *sims.get(i, i).unwrap()).sum();
    let total: f64 = totals.iter().sum();
    assert!(close(total, 2.0 * all - diagonal));
}

#[test]
fn totals_are_exact_over_integers() {
    let sims = Triangular::from_cells(3, vec![1u64, 20, 300, 4000, 50000, 600000]).unwrap();
    let totals = norms(&sims, 0, |a, b| a + b);
    assert_eq!(totals, vec![1 + 20 + 4000, 20 + 300 + 50000, 4000 + 50000 + 600000]);
    let all: u64 = sims.as_cells().iter().sum();
    let diagonal: u64 = 1 + 300 + 600000;
    assert_eq!(totals.iter().sum::<u64>(), 2 * all - diagonal);
}

#[test]
fn totals_add_up_in_the_order_of_the_group() {
    let sims = Triangular::from_cells(3, vec![1u64, 2, 3, 4, 5, 6]).unwrap();
    let totals = norms(&sims, 9, |acc, x| acc * 10 + x);
    assert_eq!(totals, vec![9124, 9235, 9456]);
}

#[test]
fn metric_is_scaled_by_the_total_of_the_column() {
    let sims = Triangular::from_cells(2, vec![1u64, 2, 3]).unwrap();
    let totals = vec![10u64, 100];
    let metric = lexical_metrics(&sims, &totals, |s, t, n| s * t + n as u64).unwrap();
    assert_eq!(metric, vec![vec![1 * 10 + 2, 2 * 100 + 2], vec![2 * 10 + 2, 3 * 100 + 2]]);
}

#[test]
fn metric_needs_one_total_per_item() {
    let sims = Triangular::from_cells(2, vec![1.0, 0.5, 1.0]).unwrap();
    assert!(lexical_metrics(&sims, &vec![1.5], scale).is_none());
    assert!(lexical_metrics(&sims, &vec![1.5, 1.5, 1.5], scale).is_none());
    assert!(lexical_metrics(&sims, &vec![1.5, 1.5], scale).is_some());
}

#[test]
fn metric_is_not_symmetric_but_cross_products_agree() {
    let words = group(&[("a", "kat"), ("b", "kot"), ("c", "sitting")]);
    let sims = similarities(&distances(&words), decay);
    let totals = norms(&sims, 0.0, plus);
    let metric = lexical_metrics(&sims, &totals, scale).unwrap();
    let mut asymmetric = false;
    for i in 0..3 {
        for j in 0..3 {
            if metric[i][j] != metric[j][i] {
                asymmetric = true;
            }
            assert!(close(metric[i][j] * totals[j], metric[j][i] * totals[i]));
        }
    }
    assert!(asymmetric);
}

#[test]
fn zero_total_gives_zero_metric() {
    let sims = Triangular::from_cells(1, vec![0.0]).unwrap();
    let totals = norms(&sims, 0.0, plus);
    assert_eq!(totals, vec![0.0]);
    let metric = lexical_metrics(&sims, &totals, scale).unwrap();
    assert_eq!(metric, vec![vec![0.0]]);
}

#[test]
fn builder_gives_similarities_and_totals_together() {
    let words = group(&[("cat", "kat"), ("cot", "kot"), ("dog", "dog")]);
    let (sims, totals) = distances_norms(&words, decay, 0.0, plus);
    let s10 = (-(2.0f64 / 6.0)).exp();
    let s20 = (-1.0f64).exp();
    let s21 = (-(4.0f64 / 6.0)).exp();
    assert_eq!(sims.rows(), 3);
    assert_eq!(sims.as_cells(), &vec![1.0, s10, 1.0, s20, s21, 1.0]);
    assert_eq!(totals, vec![0.0 + 1.0 + s10 + s20, 0.0 + s10 + 1.0 + s21, 0.0 + s20 + s21 + 1.0]);
}

#[test]
fn builder_agrees_with_its_steps() {
    let words = group(&[("a", "kitten"), ("b", "sitting"), ("c", ""), ("d", "mitten"), ("e", "kitten")]);
    let (sims, totals) = distances_norms(&words, decay, 0.0, plus);
    let stepwise = similarities(&distances(&words), decay);
    assert_eq!(sims.as_cells(), stepwise.as_cells());
    assert_eq!(totals, norms(&stepwise, 0.0, plus));
}

#[test]
fn builder_totals_match_the_running_sums_of_one_pass() {
    let words = group(&[("a", "kitten"), ("b", "sitting"), ("c", "x"), ("d", "mitten"), ("e", "kat")]);
    let (sims, totals) = distances_norms(&words, decay, 0.0, plus);
    let n = words.len();
    let mut one_pass = vec![0.0; n];
    for i in 0..n {
        for j in 0..=i {
            let s = *sims.get(i, j).unwrap();
            if i != j {
                one_pass[j] += s;
            }
            one_pass[i] += s;
        }
    }
    assert_eq!(totals, one_pass);
}

#[test]
fn builder_on_an_empty_and_a_single_group() {
    let (sims, totals) = distances_norms(&group(&[]), decay, 0.0, plus);
    assert_eq!(sims.rows(), 0);
    assert!(sims.as_cells().is_empty());
    assert!(totals.is_empty());
    let (sims, totals) = distances_norms(&group(&[("cat", "kat")]), decay, 0.0, plus);
    assert_eq!(sims.as_cells(), &vec![1.0]);
    assert_eq!(totals, vec![1.0]);
}

#[test]
fn reversing_a_pair_keeps_its_similarity_and_swaps_the_totals() {
    let pairs = [("kat", "kot"), ("kitten", "sitting"), ("a", "abc"), ("ʃtaɪn", "stain"), ("x", "x")];
    for (x, y) in pairs {
        let (da, na) = distances_norms(&group(&[("w0", x), ("w1", y)]), decay, 0.0, plus);
        let (db, nb) = distances_norms(&group(&[("w1", y), ("w0", x)]), decay, 0.0, plus);
        assert_eq!(da.as_cells(), db.as_cells());
        assert_eq!(da.as_cells().len(), 3);
        assert_eq!(da.get(1, 0), db.get(1, 0));
        assert_eq!(na[0], nb[1]);
        assert_eq!(na[1], nb[0]);
    }
}

#[test]
fn reversing_a_group_reverses_similarities_and_totals() {
    let words = group(&[("a", "kat"), ("b", "kot"), ("c", "sitting"), ("d", ""), ("e", "kat")]);
    let mut reversed = group(&[("a", "kat"), ("b", "kot"), ("c", "sitting"), ("d", ""), ("e", "kat")]);
    reversed.reverse();
    let n = words.len();
    let (sims, totals) = distances_norms(&words, decay, 0.0, plus);
    let (others, other_totals) = distances_norms(&reversed, decay, 0.0, plus);
    for i in 0..n {
        for j in 0..n {
            assert_eq!(others.get(i, j), sims.get(n - 1 - i, n - 1 - j));
        }
        assert!(close(other_totals[i], totals[n - 1 - i]));
    }
}

#[test]
fn reversed_totals_are_exact_over_integers() {
    let words = group(&[("a", "kat"), ("b", "kot"), ("c", "sitting"), ("d", "")]);
    let mut reversed = group(&[("a", "kat"), ("b", "kot"), ("c", "sitting"), ("d", "")]);
    reversed.reverse();
    let weigh = |r: Ratio| (1000 * r.num / r.den) as u64;
    let (_, totals) = distances_norms(&words, weigh, 0, |a, b| a + b);
    let (_, mut other_totals) = distances_norms(&reversed, weigh, 0, |a, b| a + b);
    other_totals.reverse();
    assert_eq!(totals, other_totals);
    assert_eq!(totals[0], 0 + 333 + 1200 + 2000);
}

#[test]
fn every_word_is_fully_similar_to_itself() {
    let words = group(&[("a", "kat"), ("b", ""), ("c", "sitting"), ("d", "kat")]);
    let (sims, _) = distances_norms(&words, decay, 0.0, plus);
    for i in 0..4 {
        assert_eq!(sims.get(i, i), Some(&1.0));
    }
    assert_eq!(sims.get(3, 0), Some(&1.0));
    for (i, j) in [(1, 0), (2, 0), (2, 1), (3, 1), (3, 2)] {
        let s = *sims.get(i, j).unwrap();
        assert!(0.0 < s && s < 1.0);
    }
    assert!(sims.as_cells().iter().all(|s| 0.0 < *s && *s <= 1.0 && !s.is_nan()));
}
