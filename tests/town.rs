use tsp_sa_meta::{DistType, TownDistance};

fn l2(a: &[f64], b: &[f64]) -> f64 {
    let mut s = 0.0;
    for (aa, bb) in a.iter().zip(b.iter()) {
        let t = aa - bb;
        s += t * t;
    }
    s.sqrt()
}

fn l2_table(towns: &[[f64; 2]]) -> TownDistance<f64> {
    TownDistance::new(towns.len(), |i, j| l2(&towns[i], &towns[j])).unwrap()
}

#[test]
fn town_distance_l2() {
    let towns = vec![[0.0, 0.0], [0.0, 3.0], [4.0, 0.0], [3.0, 4.0]];
    let cost = [
        [0.0, 3.0, 4.0, 5.0],
        [3.0, 0.0, 5.0, 10f64.sqrt()],
        [4.0, 5.0, 0.0, 17f64.sqrt()],
        [5.0, 10f64.sqrt(), 17f64.sqrt(), 0.0],
    ];
    let dist = l2_table(&towns);
    assert_eq!(dist.len(), towns.len());
    for i in 0..towns.len() {
        for j in 0..towns.len() {
            assert_eq!(dist.dist(i, j), cost[i][j]);
        }
    }
}

#[test]
fn distances_are_symmetric_and_zero_on_the_diagonal() {
    let towns = vec![[0.5, 1.0], [2.0, -3.0], [7.0, 0.25], [1.0, 1.0], [-4.0, 2.0]];
    let dist = l2_table(&towns);
    for i in 0..towns.len() {
        assert_eq!(dist.dist(i, i), 0.0);
        for j in 0..towns.len() {
            assert_eq!(dist.dist(i, j), dist.dist(j, i));
        }
    }
}

#[test]
fn table_is_filled_in_packed_order() {
    let calls = std::cell::RefCell::new(Vec::new());
    let dist = TownDistance::new(3, |i, j| {
        calls.borrow_mut().push((i, j));
        (i * 10 + j) as u64
    })
    .unwrap();
    assert_eq!(calls.into_inner(), vec![(0, 0), (1, 0), (1, 1), (2, 0), (2, 1), (2, 2)]);
    assert_eq!(dist.dist(0, 0), 0);
    assert_eq!(dist.dist(1, 0), 10);
    assert_eq!(dist.dist(0, 1), 10);
    assert_eq!(dist.dist(2, 1), 21);
    assert_eq!(dist.dist(1, 2), 21);
    assert_eq!(dist.dist(2, 2), 22);
}

#[test]
fn empty_table_has_no_towns() {
    let dist = TownDistance::new(0, |_i, _j| 0u32).unwrap();
    assert_eq!(dist.len(), 0);
}

#[test]
fn oversized_table_is_refused() {
    assert!(TownDistance::new(usize::MAX, |_i, _j| 0u8).is_none());
    assert!(TownDistance::new(usize::MAX / 2, |_i, _j| 0u8).is_none());
}

#[test]
fn metric_names_are_read_without_case() {
    assert_eq!(DistType::parse("l1").unwrap(), DistType::L1);
    assert_eq!(DistType::parse("L2").unwrap(), DistType::L2);
    assert_eq!(DistType::parse("l2sq").unwrap(), DistType::L2Sq);
    assert_eq!(DistType::parse("L2_SQ").unwrap(), DistType::L2Sq);
    assert_eq!(DistType::parse("LInf").unwrap(), DistType::LInf);
    assert_eq!(DistType::parse("l_inf").unwrap(), DistType::LInf);
}

#[test]
fn unknown_metric_name_is_refused() {
    assert_eq!(DistType::parse("L3").unwrap_err().name, "l3");
    assert_eq!(DistType::parse("").unwrap_err().name, "");
    assert_eq!(DistType::parse("l2 ").unwrap_err().name, "l2 ");
    assert_eq!(DistType::parse("Manhattan").unwrap_err().name, "manhattan");
}
