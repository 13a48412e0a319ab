use tsp_sa_meta::order_ab;

#[test]
fn test_order_ab() {
    assert_eq!(order_ab(1, 2), (1, 2));
    assert_eq!(order_ab(2, 1), (1, 2));
    assert_eq!(order_ab(2, 2), (2, 2));
}
