use s2::permutator::Permutator;

fn all_permutations(elts: Vec<i32>) -> Vec<Vec<i32>> {
    let mut p: Permutator<i32> = Permutator::new();
    let n = elts.len();
    p.load(&elts);
    let total: usize = (1..=n).product();
    let mut out = Vec::new();
    for _ in 0..total {
        p.next();
        out.push(p.current());
    }
    out
}

#[test]
fn size_1() {
    let all = all_permutations(vec![1]);
    assert_eq!(vec![vec![1]], all);
}

#[test]
fn size_2() {
    let all = all_permutations(vec![1, 2]);
    assert_eq!(vec![vec![1, 2], vec![2, 1]], all);
}

#[test]
fn size_3() {
    let all = all_permutations(vec![1, 2, 3]);
    assert_eq!(
        vec![
            vec![1, 2, 3],
            vec![2, 1, 3],
            vec![3, 1, 2],
            vec![1, 3, 2],
            vec![2, 3, 1],
            vec![3, 2, 1]
        ],
        all
    );
}
