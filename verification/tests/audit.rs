use person2vec::audit::{book_groups, repo_groups, shuffled_labels};
use person2vec::model::Passage;

fn reference_shuffle(mut labels: Vec<usize>) -> Vec<usize> {
    let mut rng: u64 = 0x9E3779B97F4A7C15;
    for i in (1..labels.len()).rev() {
        rng ^= rng << 13;
        rng ^= rng >> 7;
        rng ^= rng << 17;
        let j = (rng % (i as u64 + 1)) as usize;
        labels.swap(i, j);
    }
    labels
}

#[test]
fn shuffle_is_the_fixed_fisher_yates_permutation() {
    let labels: Vec<usize> = (0..12).map(|i| i % 4).collect();
    let s = shuffled_labels(labels.clone());
    assert_eq!(s, reference_shuffle(labels.clone()));
    let mut a = s.clone();
    let mut b = labels.clone();
    a.sort();
    b.sort();
    assert_eq!(a, b);
    assert_ne!(s, labels);
    assert_eq!(shuffled_labels(vec![7]), vec![7]);
    assert_eq!(shuffled_labels(Vec::new()), Vec::<usize>::new());
}

fn passage(author: usize, series: &str, mystery: bool) -> Passage {
    Passage {
        author_id: author,
        book_title: String::new(),
        series: series.to_string(),
        text: String::new(),
        is_mystery: mystery,
        authored: 0,
    }
}

#[test]
fn repo_groups_sorted_with_distinct_devs() {
    let ps = vec![
        passage(0, "zeta", false),
        passage(1, "alpha", false),
        passage(0, "alpha", false),
        passage(2, "alpha", true),
        passage(1, "alpha", false),
        passage(3, "solo", true),
    ];
    let g = repo_groups(&ps);
    assert_eq!(g.len(), 2);
    assert_eq!(g[0], ("alpha".to_string(), vec![1, 2, 4], 2));
    assert_eq!(g[1], ("zeta".to_string(), vec![0], 1));
}

fn book(author: usize, title: &str, mystery: bool) -> Passage {
    Passage {
        author_id: author,
        book_title: title.to_string(),
        series: String::new(),
        text: String::new(),
        is_mystery: mystery,
        authored: 0,
    }
}

#[test]
fn book_groups_by_author_then_title() {
    let ps = vec![book(1, "Zed", false), book(0, "Emma", false), book(1, "Alpha", true), book(0, "Emma", true), book(1, "Zed", false)];
    let g = book_groups(&ps, 2);
    assert_eq!(
        g,
        vec![
            (0, "Emma".to_string(), vec![1, 3]),
            (1, "Alpha".to_string(), vec![2]),
            (1, "Zed".to_string(), vec![0, 4]),
        ]
    );
}
