use websocket_balancer::kappa;

#[test]
fn it_works() {
    assert_eq!(2 + 2, 4);
}

#[test]
fn kappa_is_the_product() {
    assert_eq!(kappa(), 1989456);
}
